//! The command line of the client.

use crate::client::{filter_for, parse_filter, unknown_types, MAX_PARALLEL};
use crate::text::{
    chars_of, head_end, number_in, parse_number, pieces, same_text, text_given,
    text_models, text_of,
};
use vstd::prelude::*;

verus! {

/// What the client is asked to do.
#[derive(Debug, Clone)]
pub struct ClientArgs {
    pub addr: String,
    pub server_name: String,
    pub cert_path: String,
    /// Whether `cert_path` was given, and is not just the default.
    pub cert_set: bool,
    pub receive_dir: String,
    pub batch: bool,
    pub watch: bool,
    /// Which file types to keep of a catalog. `None` keeps all.
    pub filter_mask: Option<u8>,
    /// The names in `--filter` lists that name no file type.
    pub ignored_types: Vec<String>,
    pub verbose: bool,
    pub repeat: usize,
    pub keep_alive: bool,
    pub parallel: usize,
    pub tcp_nodelay: bool,
    /// Use TCP instead of QUIC.
    pub no_quic: bool,
    /// Use TCP without TLS.
    pub plain: bool,
}

/// What the options seen so far amount to. Texts that were not given are
/// `None`.
#[verifier::ext_equal]
pub struct OptionsModel {
    pub addr: Option<Seq<char>>,
    pub server_name: Option<Seq<char>>,
    pub cert_path: Option<Seq<char>>,
    pub receive_dir: Option<Seq<char>>,
    pub batch: bool,
    pub watch: bool,
    pub filter_mask: Option<u8>,
    pub ignored_types: Seq<Seq<char>>,
    pub verbose: bool,
    pub repeat: usize,
    pub keep_alive: bool,
    pub parallel: usize,
    pub tcp_nodelay: bool,
    pub no_quic: bool,
    pub plain: bool,
}

/// The options of an empty command line.
pub open spec fn no_options() -> OptionsModel {
    OptionsModel {
        addr: None,
        server_name: None,
        cert_path: None,
        receive_dir: None,
        batch: false,
        watch: false,
        filter_mask: None,
        ignored_types: Seq::empty(),
        verbose: false,
        repeat: 1,
        keep_alive: false,
        parallel: 1,
        tcp_nodelay: true,
        no_quic: false,
        plain: false,
    }
}

/// An address without a leading `jtp://`.
pub open spec fn cleaned(addr: Seq<char>) -> Seq<char> {
    if addr.len() >= 6 && addr.take(6) == "jtp://"@ {
        addr.skip(6)
    } else {
        addr
    }
}

/// Whether an option is followed by a value.
pub open spec fn takes_value(arg: Seq<char>) -> bool {
    ||| arg == "--addr"@ || arg == "--server-name"@ || arg == "--cert"@
    ||| arg == "--out"@ || arg == "--output"@ || arg == "--filter"@ || arg == "-f"@
    ||| arg == "--repeat"@ || arg == "--parallel"@ || arg == "-p"@
}

/// The options after one that is followed by a value. Values that are no
/// numbers where numbers are expected change nothing.
pub open spec fn with_value(arg: Seq<char>, value: Seq<char>, o: OptionsModel) -> OptionsModel {
    if arg == "--addr"@ {
        OptionsModel { addr: Some(cleaned(value)), ..o }
    } else if arg == "--server-name"@ {
        OptionsModel { server_name: Some(value), ..o }
    } else if arg == "--cert"@ {
        OptionsModel { cert_path: Some(value), ..o }
    } else if arg == "--out"@ || arg == "--output"@ {
        OptionsModel { receive_dir: Some(value), ..o }
    } else if arg == "--filter"@ || arg == "-f"@ {
        OptionsModel {
            filter_mask: filter_for(value),
            ignored_types: o.ignored_types + unknown_types(pieces(value, ',')),
            ..o
        }
    } else {
        match number_in(value, usize::MAX as nat) {
            None => o,
            Some(n) => if arg == "--repeat"@ {
                OptionsModel {
                    repeat: if n < 1 {
                        1
                    } else {
                        n as usize
                    },
                    ..o
                }
            } else {
                OptionsModel {
                    parallel: if n < 1 {
                        1
                    } else if n > MAX_PARALLEL {
                        MAX_PARALLEL
                    } else {
                        n as usize
                    },
                    ..o
                }
            },
        }
    }
}

/// The options after one that stands alone, or after an argument that is no
/// option: the first such is the address, if none was given.
pub open spec fn with_flag(arg: Seq<char>, o: OptionsModel) -> OptionsModel {
    if arg == "--batch"@ || arg == "--delta"@ {
        OptionsModel { batch: true, ..o }
    } else if arg == "--watch"@ || arg == "-w"@ {
        OptionsModel { watch: true, ..o }
    } else if arg == "--no-quic"@ {
        OptionsModel { no_quic: true, ..o }
    } else if arg == "--tls"@ || arg == "--secure"@ {
        OptionsModel { no_quic: true, plain: false, ..o }
    } else if arg == "--no-tls"@ || arg == "--plain"@ {
        OptionsModel { no_quic: true, plain: true, ..o }
    } else if arg == "-v"@ || arg == "--verbose"@ {
        OptionsModel { verbose: true, ..o }
    } else if arg == "--keep-alive"@ || arg == "-k"@ {
        OptionsModel { keep_alive: true, ..o }
    } else if arg == "--no-tcp-nodelay"@ {
        OptionsModel { tcp_nodelay: false, ..o }
    } else if o.addr is None && (arg.len() == 0 || arg[0] != '-') {
        OptionsModel { addr: Some(cleaned(arg)), ..o }
    } else {
        o
    }
}

/// The options after these arguments; `None` if they ask for help.
pub open spec fn options_after(args: Seq<Seq<char>>, o: OptionsModel) -> Option<OptionsModel>
    decreases args.len(),
{
    if args.len() == 0 {
        Some(o)
    } else if args[0] == "-h"@ || args[0] == "--help"@ {
        None
    } else if takes_value(args[0]) {
        if args.len() == 1 {
            Some(o)
        } else {
            options_after(args.skip(2), with_value(args[0], args[1], o))
        }
    } else {
        options_after(args.skip(1), with_flag(args[0], o))
    }
}

/// The address to connect to; the port is 8443 unless given.
pub open spec fn address(o: OptionsModel) -> Seq<char> {
    let addr = match o.addr {
        Some(addr) => cleaned(addr),
        None => "127.0.0.1:8443"@,
    };
    if addr.contains(':') {
        addr
    } else {
        addr + ":8443"@
    }
}

/// The name that the server's certificate must have.
pub open spec fn certified_name(o: OptionsModel) -> Seq<char> {
    match o.server_name {
        Some(name) => name,
        None => "localhost"@,
    }
}

impl ClientArgs {
    /// Whether these arguments are what the options `o` amount to.
    pub open spec fn says(&self, o: OptionsModel) -> bool {
        &&& self.addr@ == address(o)
        &&& self.server_name@ == certified_name(o)
        &&& self.cert_path@ == (match o.cert_path {
            Some(path) => path,
            None => "cert.pem"@,
        })
        &&& self.cert_set == o.cert_path is Some
        &&& self.receive_dir@ == (match o.receive_dir {
            Some(dir) => dir,
            None => "output"@,
        })
        &&& self.batch == o.batch
        &&& self.watch == o.watch
        &&& self.filter_mask == o.filter_mask
        &&& text_models(self.ignored_types@) == o.ignored_types
        &&& self.verbose == o.verbose
        &&& self.repeat == o.repeat
        &&& self.keep_alive == o.keep_alive
        &&& self.parallel == o.parallel
        &&& self.tcp_nodelay == o.tcp_nodelay
        &&& self.no_quic == o.no_quic
        &&& self.plain == o.plain
    }
}

struct Options {
    addr: Option<String>,
    server_name: Option<String>,
    cert_path: Option<String>,
    receive_dir: Option<String>,
    batch: bool,
    watch: bool,
    filter_mask: Option<u8>,
    ignored_types: Vec<String>,
    verbose: bool,
    repeat: usize,
    keep_alive: bool,
    parallel: usize,
    tcp_nodelay: bool,
    no_quic: bool,
    plain: bool,
}

impl View for Options {
    type V = OptionsModel;

    closed spec fn view(&self) -> OptionsModel {
        OptionsModel {
            addr: text_given(self.addr),
            server_name: text_given(self.server_name),
            cert_path: text_given(self.cert_path),
            receive_dir: text_given(self.receive_dir),
            batch: self.batch,
            watch: self.watch,
            filter_mask: self.filter_mask,
            ignored_types: text_models(self.ignored_types@),
            verbose: self.verbose,
            repeat: self.repeat,
            keep_alive: self.keep_alive,
            parallel: self.parallel,
            tcp_nodelay: self.tcp_nodelay,
            no_quic: self.no_quic,
            plain: self.plain,
        }
    }
}

/// Computes `cleaned`.
pub fn clean_addr(raw: &str) -> (r: String)
    ensures
        r@ == cleaned(raw@),
{
    let s = chars_of(raw);
    if s.len() >= 6 {
        let scheme = text_of(&s[0..6]);
        proof {
            assert(s@.subrange(0, 6) =~= s@.take(6));
            assert(s@.subrange(6, s@.len() as int) =~= s@.skip(6));
        }
        if same_text(&scheme, "jtp://") {
            return text_of(&s[6..s.len()]);
        }
    }
    raw.to_owned()
}

fn is_arg(arg: &str, word: &str) -> (r: bool)
    ensures
        r == (arg@ == word@),
{
    same_text(arg, word)
}

fn is_help(arg: &str) -> (r: bool)
    ensures
        r == (arg@ == "-h"@ || arg@ == "--help"@),
{
    is_arg(arg, "-h") || is_arg(arg, "--help")
}

fn expects_value(arg: &str) -> (r: bool)
    ensures
        r == takes_value(arg@),
{
    is_arg(arg, "--addr") || is_arg(arg, "--server-name") || is_arg(arg, "--cert") || is_arg(
        arg,
        "--out",
    ) || is_arg(arg, "--output") || is_arg(arg, "--filter") || is_arg(arg, "-f") || is_arg(
        arg,
        "--repeat",
    ) || is_arg(arg, "--parallel") || is_arg(arg, "-p")
}

fn set_value(o: &mut Options, arg: &str, value: &str)
    ensures
        final(o)@ == with_value(arg@, value@, old(o)@),
{
    if is_arg(arg, "--addr") {
        o.addr = Some(clean_addr(value));
    } else if is_arg(arg, "--server-name") {
        o.server_name = Some(value.to_owned());
    } else if is_arg(arg, "--cert") {
        o.cert_path = Some(value.to_owned());
    } else if is_arg(arg, "--out") || is_arg(arg, "--output") {
        o.receive_dir = Some(value.to_owned());
    } else if is_arg(arg, "--filter") || is_arg(arg, "-f") {
        let (mask, mut ignored) = parse_filter(value);
        o.filter_mask = mask;
        let ghost before = o.ignored_types@;
        let ghost more = ignored@;
        o.ignored_types.append(&mut ignored);
        proof {
            assert(text_models(o.ignored_types@) =~= text_models(before) + text_models(more));
        }
    } else if let Some(n) = parse_number(&chars_of(value), usize::MAX as u64) {
        let n: usize = n as usize;
        if is_arg(arg, "--repeat") {
            o.repeat = if n < 1 {
                1
            } else {
                n
            };
        } else {
            o.parallel = if n < 1 {
                1
            } else if n > MAX_PARALLEL {
                MAX_PARALLEL
            } else {
                n
            };
        }
    }
}

fn set_flag(o: &mut Options, arg: &str)
    ensures
        final(o)@ == with_flag(arg@, old(o)@),
{
    if is_arg(arg, "--batch") || is_arg(arg, "--delta") {
        o.batch = true;
    } else if is_arg(arg, "--watch") || is_arg(arg, "-w") {
        o.watch = true;
    } else if is_arg(arg, "--no-quic") {
        o.no_quic = true;
    } else if is_arg(arg, "--tls") || is_arg(arg, "--secure") {
        o.no_quic = true;
        o.plain = false;
    } else if is_arg(arg, "--no-tls") || is_arg(arg, "--plain") {
        o.no_quic = true;
        o.plain = true;
    } else if is_arg(arg, "-v") || is_arg(arg, "--verbose") {
        o.verbose = true;
    } else if is_arg(arg, "--keep-alive") || is_arg(arg, "-k") {
        o.keep_alive = true;
    } else if is_arg(arg, "--no-tcp-nodelay") {
        o.tcp_nodelay = false;
    } else if o.addr.is_none() {
        let s = chars_of(arg);
        if s.len() == 0 || s[0] != '-' {
            o.addr = Some(clean_addr(arg));
        }
    }
}

fn with_default(given: Option<String>, default: &str) -> (r: String)
    ensures
        r@ == (match given {
            Some(text) => text@,
            None => default@,
        }),
{
    match given {
        Some(text) => text,
        None => default.to_owned(),
    }
}

fn finish(o: Options) -> (args: ClientArgs)
    ensures
        args.says(o@),
{
    let mut addr: String = match &o.addr {
        Some(addr) => clean_addr(addr),
        None => "127.0.0.1:8443".to_owned(),
    };
    let s = chars_of(&addr);
    let end: usize = head_end(&s, 0, ':');
    proof {
        assert(s@.skip(0) =~= s@);
        if end < s@.len() {
            assert(s@.contains(s@[end as int]));
        }
    }
    if end == s.len() {
        addr.append(":8443");
    }
    let cert_set = o.cert_path.is_some();
    ClientArgs {
        addr,
        server_name: with_default(o.server_name, "localhost"),
        cert_path: with_default(o.cert_path, "cert.pem"),
        cert_set,
        receive_dir: with_default(o.receive_dir, "output"),
        batch: o.batch,
        watch: o.watch,
        filter_mask: o.filter_mask,
        ignored_types: o.ignored_types,
        verbose: o.verbose,
        repeat: o.repeat,
        keep_alive: o.keep_alive,
        parallel: o.parallel,
        tcp_nodelay: o.tcp_nodelay,
        no_quic: o.no_quic,
        plain: o.plain,
    }
}

/// Parses the arguments of the client, without the program's name; `None` if
/// they ask for help. Options that are not known are ignored.
pub fn parse_args(args: &[String]) -> (r: Option<ClientArgs>)
    ensures
        match options_after(text_models(args@), no_options()) {
            Some(o) => r matches Some(parsed) && parsed.says(o),
            None => r is None,
        },
{
    let mut o = Options {
        addr: None,
        server_name: None,
        cert_path: None,
        receive_dir: None,
        batch: false,
        watch: false,
        filter_mask: None,
        ignored_types: Vec::new(),
        verbose: false,
        repeat: 1,
        keep_alive: false,
        parallel: 1,
        tcp_nodelay: true,
        no_quic: false,
        plain: false,
    };
    let ghost models = text_models(args@);
    let n: usize = args.len();
    let mut i: usize = 0;
    proof {
        assert(models.skip(0) =~= models);
        assert(o@ =~= no_options());
    }
    while i < n
        invariant
            i <= n == args@.len(),
            models == text_models(args@),
            options_after(models, no_options()) == options_after(models.skip(i as int), o@),
        ensures
            options_after(models, no_options()) == Some(o@),
        decreases n - i,
    {
        let ghost rest = models.skip(i as int);
        proof {
            assert(rest[0] == args@[i as int]@);
        }
        if is_help(&args[i]) {
            return None;
        }
        if expects_value(&args[i]) {
            if i + 1 == n {
                break;
            }
            proof {
                assert(rest[1] == args@[i + 1]@);
                assert(rest.skip(2) =~= models.skip(i + 2));
            }
            set_value(&mut o, &args[i], &args[i + 1]);
            i = i + 2;
        } else {
            proof {
                assert(rest.skip(1) =~= models.skip(i + 1));
            }
            set_flag(&mut o, &args[i]);
            i = i + 1;
        }
    }
    Some(finish(o))
}

proof fn lemma_bounds_kept(args: Seq<Seq<char>>, o: OptionsModel)
    requires
        1 <= o.parallel <= MAX_PARALLEL,
        o.repeat >= 1,
    ensures
        options_after(args, o) matches Some(p) ==> 1 <= p.parallel <= MAX_PARALLEL && p.repeat >= 1,
    decreases args.len(),
{
    if args.len() > 0 && !(args[0] == "-h"@ || args[0] == "--help"@) {
        if takes_value(args[0]) {
            if args.len() > 1 {
                lemma_bounds_kept(args.skip(2), with_value(args[0], args[1], o));
            }
        } else {
            lemma_bounds_kept(args.skip(1), with_flag(args[0], o));
        }
    }
}

/// Whatever the arguments are, there are between 1 and `MAX_PARALLEL` workers,
/// at least one round, and a port in the address.
pub proof fn law_arguments_are_bounded(args: Seq<Seq<char>>)
    ensures
        options_after(args, no_options()) matches Some(o) ==> {
            &&& 1 <= o.parallel <= MAX_PARALLEL
            &&& o.repeat >= 1
            &&& address(o).contains(':')
        },
{
    lemma_bounds_kept(args, no_options());
    if let Some(o) = options_after(args, no_options()) {
        let addr = match o.addr {
            Some(addr) => cleaned(addr),
            None => "127.0.0.1:8443"@,
        };
        if !addr.contains(':') {
            reveal_strlit(":8443");
            assert(address(o)[addr.len() as int] == ':');
        }
    }
}

proof fn lemma_option_words()
    ensures
        "--addr"@.len() == 6 && "--addr"@[2] == 'a',
        "--server-name"@.len() == 13 && "--server-name"@[2] == 's',
        "--cert"@.len() == 6 && "--cert"@[2] == 'c',
        "--out"@.len() == 5 && "--out"@[2] == 'o',
        "--output"@.len() == 8 && "--output"@[2] == 'o',
        "--filter"@.len() == 8 && "--filter"@[2] == 'f',
        "-f"@.len() == 2 && "-f"@[1] == 'f',
        "--repeat"@.len() == 8 && "--repeat"@[2] == 'r',
        "--parallel"@.len() == 10 && "--parallel"@[2] == 'p',
        "-p"@.len() == 2 && "-p"@[1] == 'p',
        "-h"@.len() == 2 && "-h"@[1] == 'h',
        "--help"@.len() == 6 && "--help"@[2] == 'h',
        "--batch"@.len() == 7 && "--batch"@[2] == 'b',
        "--delta"@.len() == 7 && "--delta"@[2] == 'd',
        "--watch"@.len() == 7 && "--watch"@[2] == 'w',
        "-w"@.len() == 2 && "-w"@[1] == 'w',
        "--no-quic"@.len() == 9 && "--no-quic"@[2] == 'n',
        "--tls"@.len() == 5 && "--tls"@[2] == 't',
        "--secure"@.len() == 8 && "--secure"@[2] == 's',
        "--no-tls"@.len() == 8 && "--no-tls"@[2] == 'n',
        "--plain"@.len() == 7 && "--plain"@[2] == 'p',
        "-v"@.len() == 2 && "-v"@[1] == 'v',
        "--verbose"@.len() == 9 && "--verbose"@[2] == 'v',
        "--keep-alive"@.len() == 12 && "--keep-alive"@[2] == 'k',
        "-k"@.len() == 2 && "-k"@[1] == 'k',
        "--no-tcp-nodelay"@.len() == 16 && "--no-tcp-nodelay"@[2] == 'n',
        "--addr"@[0] == '-',
        "--server-name"@[0] == '-',
        "--cert"@[0] == '-',
        "--out"@[0] == '-',
        "--output"@[0] == '-',
        "--filter"@[0] == '-',
        "-f"@[0] == '-',
        "--repeat"@[0] == '-',
        "--parallel"@[0] == '-',
        "-p"@[0] == '-',
        "-h"@[0] == '-',
        "--help"@[0] == '-',
        "--batch"@[0] == '-',
        "--delta"@[0] == '-',
        "--watch"@[0] == '-',
        "-w"@[0] == '-',
        "--no-quic"@[0] == '-',
        "--tls"@[0] == '-',
        "--secure"@[0] == '-',
        "--no-tls"@[0] == '-',
        "--plain"@[0] == '-',
        "-v"@[0] == '-',
        "--verbose"@[0] == '-',
        "--keep-alive"@[0] == '-',
        "-k"@[0] == '-',
        "--no-tcp-nodelay"@[0] == '-',
{
    reveal_strlit("--addr");
    reveal_strlit("--server-name");
    reveal_strlit("--cert");
    reveal_strlit("--out");
    reveal_strlit("--output");
    reveal_strlit("--filter");
    reveal_strlit("-f");
    reveal_strlit("--repeat");
    reveal_strlit("--parallel");
    reveal_strlit("-p");
    reveal_strlit("-h");
    reveal_strlit("--help");
    reveal_strlit("--batch");
    reveal_strlit("--delta");
    reveal_strlit("--watch");
    reveal_strlit("-w");
    reveal_strlit("--no-quic");
    reveal_strlit("--tls");
    reveal_strlit("--secure");
    reveal_strlit("--no-tls");
    reveal_strlit("--plain");
    reveal_strlit("-v");
    reveal_strlit("--verbose");
    reveal_strlit("--keep-alive");
    reveal_strlit("-k");
    reveal_strlit("--no-tcp-nodelay");
}

/// The larger of two numbers.
pub open spec fn larger(a: nat, b: nat) -> nat {
    if a < b {
        b
    } else {
        a
    }
}

/// Each option that takes a value sets what it is for to that value, changes
/// nothing else, and what follows is read as if it stood alone. A number that
/// is none changes nothing. Without a value such an option changes nothing.
pub proof fn law_client_values(v: Seq<char>, rest: Seq<Seq<char>>, o: OptionsModel)
    ensures
        options_after(seq!["--addr"@, v] + rest, o) == options_after(rest, OptionsModel { addr: Some(cleaned(v)), ..o }),
        options_after(seq!["--server-name"@, v] + rest, o) == options_after(rest, OptionsModel { server_name: Some(v), ..o }),
        options_after(seq!["--cert"@, v] + rest, o) == options_after(rest, OptionsModel { cert_path: Some(v), ..o }),
        options_after(seq!["--out"@, v] + rest, o) == options_after(rest, OptionsModel { receive_dir: Some(v), ..o }),
        options_after(seq!["--output"@, v] + rest, o) == options_after(rest, OptionsModel { receive_dir: Some(v), ..o }),
        options_after(seq!["--filter"@, v] + rest, o) == options_after(rest, OptionsModel {
            filter_mask: filter_for(v),
            ignored_types: o.ignored_types + unknown_types(pieces(v, ',')),
            ..o
        }),
        options_after(seq!["-f"@, v] + rest, o) == options_after(rest, OptionsModel {
            filter_mask: filter_for(v),
            ignored_types: o.ignored_types + unknown_types(pieces(v, ',')),
            ..o
        }),
        options_after(seq!["--repeat"@, v] + rest, o) == options_after(rest, (match number_in(v, usize::MAX as nat) {
            Some(n) => OptionsModel { repeat: larger(n, 1) as usize, ..o },
            None => o,
        })),
        options_after(seq!["--parallel"@, v] + rest, o) == options_after(rest, (match number_in(v, usize::MAX as nat) {
            Some(n) => OptionsModel {
                parallel: (if n > 32 { 32 } else { larger(n, 1) }) as usize,
                ..o
            },
            None => o,
        })),
        options_after(seq!["-p"@, v] + rest, o) == options_after(rest, (match number_in(v, usize::MAX as nat) {
            Some(n) => OptionsModel {
                parallel: (if n > 32 { 32 } else { larger(n, 1) }) as usize,
                ..o
            },
            None => o,
        })),
        options_after(seq!["--addr"@], o) == Some(o),
        options_after(seq!["--server-name"@], o) == Some(o),
        options_after(seq!["--cert"@], o) == Some(o),
        options_after(seq!["--out"@], o) == Some(o),
        options_after(seq!["--output"@], o) == Some(o),
        options_after(seq!["--filter"@], o) == Some(o),
        options_after(seq!["-f"@], o) == Some(o),
        options_after(seq!["--repeat"@], o) == Some(o),
        options_after(seq!["--parallel"@], o) == Some(o),
        options_after(seq!["-p"@], o) == Some(o),
{
    lemma_option_words();
    assert((seq!["--addr"@, v] + rest).skip(2) =~= rest);
    assert((seq!["--server-name"@, v] + rest).skip(2) =~= rest);
    assert((seq!["--cert"@, v] + rest).skip(2) =~= rest);
    assert((seq!["--out"@, v] + rest).skip(2) =~= rest);
    assert((seq!["--output"@, v] + rest).skip(2) =~= rest);
    assert((seq!["--filter"@, v] + rest).skip(2) =~= rest);
    assert((seq!["-f"@, v] + rest).skip(2) =~= rest);
    assert((seq!["--repeat"@, v] + rest).skip(2) =~= rest);
    assert((seq!["--parallel"@, v] + rest).skip(2) =~= rest);
    assert((seq!["-p"@, v] + rest).skip(2) =~= rest);
}

/// Each option that stands alone sets what it is for, changes nothing else, and
/// what follows is read as if it stood alone. Asking for help ends it all.
pub proof fn law_client_flags(rest: Seq<Seq<char>>, o: OptionsModel)
    ensures
        options_after(seq!["--batch"@] + rest, o) == options_after(rest, OptionsModel { batch: true, ..o }),
        options_after(seq!["--delta"@] + rest, o) == options_after(rest, OptionsModel { batch: true, ..o }),
        options_after(seq!["--watch"@] + rest, o) == options_after(rest, OptionsModel { watch: true, ..o }),
        options_after(seq!["-w"@] + rest, o) == options_after(rest, OptionsModel { watch: true, ..o }),
        options_after(seq!["--no-quic"@] + rest, o) == options_after(rest, OptionsModel { no_quic: true, ..o }),
        options_after(seq!["--tls"@] + rest, o) == options_after(rest, OptionsModel { no_quic: true, plain: false, ..o }),
        options_after(seq!["--secure"@] + rest, o) == options_after(rest, OptionsModel { no_quic: true, plain: false, ..o }),
        options_after(seq!["--no-tls"@] + rest, o) == options_after(rest, OptionsModel { no_quic: true, plain: true, ..o }),
        options_after(seq!["--plain"@] + rest, o) == options_after(rest, OptionsModel { no_quic: true, plain: true, ..o }),
        options_after(seq!["-v"@] + rest, o) == options_after(rest, OptionsModel { verbose: true, ..o }),
        options_after(seq!["--verbose"@] + rest, o) == options_after(rest, OptionsModel { verbose: true, ..o }),
        options_after(seq!["--keep-alive"@] + rest, o) == options_after(rest, OptionsModel { keep_alive: true, ..o }),
        options_after(seq!["-k"@] + rest, o) == options_after(rest, OptionsModel { keep_alive: true, ..o }),
        options_after(seq!["--no-tcp-nodelay"@] + rest, o) == options_after(rest, OptionsModel { tcp_nodelay: false, ..o }),
        options_after(seq!["-h"@] + rest, o) is None,
        options_after(seq!["--help"@] + rest, o) is None,
        options_after(Seq::empty(), o) == Some(o),
{
    lemma_option_words();
    assert((seq!["--batch"@] + rest).skip(1) =~= rest);
    assert((seq!["--delta"@] + rest).skip(1) =~= rest);
    assert((seq!["--watch"@] + rest).skip(1) =~= rest);
    assert((seq!["-w"@] + rest).skip(1) =~= rest);
    assert((seq!["--no-quic"@] + rest).skip(1) =~= rest);
    assert((seq!["--tls"@] + rest).skip(1) =~= rest);
    assert((seq!["--secure"@] + rest).skip(1) =~= rest);
    assert((seq!["--no-tls"@] + rest).skip(1) =~= rest);
    assert((seq!["--plain"@] + rest).skip(1) =~= rest);
    assert((seq!["-v"@] + rest).skip(1) =~= rest);
    assert((seq!["--verbose"@] + rest).skip(1) =~= rest);
    assert((seq!["--keep-alive"@] + rest).skip(1) =~= rest);
    assert((seq!["-k"@] + rest).skip(1) =~= rest);
    assert((seq!["--no-tcp-nodelay"@] + rest).skip(1) =~= rest);
}

/// An argument that does not start with a dash is the address, if none was
/// given before, and ignored otherwise.
pub proof fn law_client_address_argument(
    arg: Seq<char>,
    rest: Seq<Seq<char>>,
    o: OptionsModel,
)
    requires
        arg.len() == 0 || arg[0] != '-',
    ensures
        options_after(seq![arg] + rest, o) == options_after(
            rest,
            if o.addr is None {
                OptionsModel { addr: Some(cleaned(arg)), ..o }
            } else {
                o
            },
        ),
{
    lemma_option_words();
    assert((seq![arg] + rest).skip(1) =~= rest);
}

/// A leading `jtp://` is taken off an address once, and nothing else is.
pub proof fn law_cleaned(addr: Seq<char>)
    ensures
        cleaned(seq!['j', 't', 'p', ':', '/', '/'] + addr) == addr,
        addr.len() < 6 || addr.take(6) != seq!['j', 't', 'p', ':', '/', '/'] ==> cleaned(addr)
            == addr,
{
    let scheme = seq!['j', 't', 'p', ':', '/', '/'];
    reveal_strlit("jtp://");
    assert("jtp://"@ =~= scheme);
    assert((scheme + addr).take(6) =~= scheme);
    assert((scheme + addr).skip(6) =~= addr);
}

/// The address is the given one, with port 8443 if it names none, and that of
/// the local machine if none was given.
pub proof fn law_address(o: OptionsModel)
    ensures
        o.addr is None ==> address(o) == "127.0.0.1:8443"@,
        o.addr matches Some(addr) ==> {
            &&& cleaned(addr).contains(':') ==> address(o) == cleaned(addr)
            &&& !cleaned(addr).contains(':') ==> address(o) == cleaned(addr) + seq![
                ':',
                '8',
                '4',
                '4',
                '3',
            ]
        },
{
    reveal_strlit("127.0.0.1:8443");
    assert("127.0.0.1:8443"@[9] == ':');
    reveal_strlit(":8443");
    assert(":8443"@ =~= seq![':', '8', '4', '4', '3']);
}

/// What the arguments say is what the options amount to; texts that were not
/// given are the documented defaults, and nothing is switched on unasked.
pub proof fn law_client_arguments(args: ClientArgs, o: OptionsModel)
    requires
        args.says(o),
    ensures
        args.addr@ == address(o),
        o.server_name matches Some(name) ==> args.server_name@ == name,
        o.server_name is None ==> args.server_name@ == "localhost"@,
        o.cert_path matches Some(path) ==> args.cert_path@ == path && args.cert_set,
        o.cert_path is None ==> args.cert_path@ == "cert.pem"@ && !args.cert_set,
        o.receive_dir matches Some(dir) ==> args.receive_dir@ == dir,
        o.receive_dir is None ==> args.receive_dir@ == "output"@,
        args.batch == o.batch,
        args.watch == o.watch,
        args.filter_mask == o.filter_mask,
        text_models(args.ignored_types@) == o.ignored_types,
        args.verbose == o.verbose,
        args.repeat == o.repeat,
        args.keep_alive == o.keep_alive,
        args.parallel == o.parallel,
        args.tcp_nodelay == o.tcp_nodelay,
        args.no_quic == o.no_quic,
        args.plain == o.plain,
        ({
            let d = no_options();
            &&& d.addr is None && d.server_name is None && d.cert_path is None
            &&& d.receive_dir is None && d.filter_mask is None && d.ignored_types.len() == 0
            &&& !d.batch && !d.watch && !d.verbose && !d.keep_alive && !d.no_quic && !d.plain
            &&& d.repeat == 1 && d.parallel == 1 && d.tcp_nodelay
        }),
{
}

/// An argument that starts with a dash and is no option is ignored, without
/// what follows it.
pub proof fn law_client_ignores_unknown(arg: Seq<char>, rest: Seq<Seq<char>>, o: OptionsModel)
    requires
        arg.len() > 0,
        arg[0] == '-',
        arg != "--addr"@,
        arg != "--server-name"@,
        arg != "--cert"@,
        arg != "--out"@,
        arg != "--output"@,
        arg != "--filter"@,
        arg != "-f"@,
        arg != "--repeat"@,
        arg != "--parallel"@,
        arg != "-p"@,
        arg != "-h"@,
        arg != "--help"@,
        arg != "--batch"@,
        arg != "--delta"@,
        arg != "--watch"@,
        arg != "-w"@,
        arg != "--no-quic"@,
        arg != "--tls"@,
        arg != "--secure"@,
        arg != "--no-tls"@,
        arg != "--plain"@,
        arg != "-v"@,
        arg != "--verbose"@,
        arg != "--keep-alive"@,
        arg != "-k"@,
        arg != "--no-tcp-nodelay"@,
    ensures
        options_after(seq![arg] + rest, o) == options_after(rest, o),
{
    assert((seq![arg] + rest).skip(1) =~= rest);
}

} // verus!
