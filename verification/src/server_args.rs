//! The command line of the server.

use crate::text::{chars_of, number_in, parse_number, same_text, text_given, text_models};
use vstd::prelude::*;

verus! {

/// What the server is asked to do. Times are in seconds.
#[derive(Debug, Clone)]
pub struct ServerArgs {
    pub bind: String,
    pub images_dir: String,
    pub cert_path: String,
    pub key_path: String,
    pub only_name_contains: Option<String>,
    /// The values of `--compression-threshold`, in their order. The last one
    /// that is a number counts.
    pub compression_thresholds: Vec<String>,
    pub verbose: bool,
    pub keep_alive_timeout: u64,
    pub tcp_nodelay: bool,
    pub no_tls: bool,
    pub rate_limit: Option<usize>,
    pub rate_limit_window: u64,
    /// Time between two rescans; `None` turns WATCH off.
    pub watch_interval: Option<u64>,
}

/// The arguments of the server as a mathematical value.
#[verifier::ext_equal]
pub struct ServerModel {
    pub bind: Seq<char>,
    pub images_dir: Seq<char>,
    pub cert_path: Seq<char>,
    pub key_path: Seq<char>,
    pub only_name_contains: Option<Seq<char>>,
    pub compression_thresholds: Seq<Seq<char>>,
    pub verbose: bool,
    pub keep_alive_timeout: u64,
    pub tcp_nodelay: bool,
    pub no_tls: bool,
    pub rate_limit: Option<usize>,
    pub rate_limit_window: u64,
    pub watch_interval: Option<u64>,
}

impl View for ServerArgs {
    type V = ServerModel;

    open spec fn view(&self) -> ServerModel {
        ServerModel {
            bind: self.bind@,
            images_dir: self.images_dir@,
            cert_path: self.cert_path@,
            key_path: self.key_path@,
            only_name_contains: text_given(self.only_name_contains),
            compression_thresholds: text_models(self.compression_thresholds@),
            verbose: self.verbose,
            keep_alive_timeout: self.keep_alive_timeout,
            tcp_nodelay: self.tcp_nodelay,
            no_tls: self.no_tls,
            rate_limit: self.rate_limit,
            rate_limit_window: self.rate_limit_window,
            watch_interval: self.watch_interval,
        }
    }
}

/// The arguments of an empty command line.
pub open spec fn default_args() -> ServerModel {
    ServerModel {
        bind: "0.0.0.0:8443"@,
        images_dir: "images"@,
        cert_path: "cert.pem"@,
        key_path: "key.pem"@,
        only_name_contains: None,
        compression_thresholds: Seq::empty(),
        verbose: false,
        keep_alive_timeout: 30,
        tcp_nodelay: true,
        no_tls: false,
        rate_limit: None,
        rate_limit_window: 1,
        watch_interval: None,
    }
}

/// Whether an option is followed by a value.
pub open spec fn takes_value(arg: Seq<char>) -> bool {
    ||| arg == "--bind"@ || arg == "--images"@ || arg == "--images-dir"@
    ||| arg == "--cert"@ || arg == "--key"@ || arg == "--only"@ || arg == "--name-contains"@
    ||| arg == "--compression-threshold"@ || arg == "--compress-threshold"@
    ||| arg == "--keep-alive-timeout"@ || arg == "--rate-limit"@
    ||| arg == "--rate-limit-window"@ || arg == "--watch-interval"@
}

/// The arguments after an option that is followed by a value. Values that are
/// no numbers where numbers are expected change nothing.
pub open spec fn with_value(arg: Seq<char>, value: Seq<char>, a: ServerModel) -> ServerModel {
    if arg == "--bind"@ {
        ServerModel { bind: value, ..a }
    } else if arg == "--images"@ || arg == "--images-dir"@ {
        ServerModel { images_dir: value, ..a }
    } else if arg == "--cert"@ {
        ServerModel { cert_path: value, ..a }
    } else if arg == "--key"@ {
        ServerModel { key_path: value, ..a }
    } else if arg == "--only"@ || arg == "--name-contains"@ {
        ServerModel { only_name_contains: Some(value), ..a }
    } else if arg == "--compression-threshold"@ || arg == "--compress-threshold"@ {
        ServerModel { compression_thresholds: a.compression_thresholds.push(value), ..a }
    } else if arg == "--rate-limit"@ {
        match number_in(value, usize::MAX as nat) {
            Some(n) => ServerModel { rate_limit: Some(n as usize), ..a },
            None => a,
        }
    } else {
        match number_in(value, u64::MAX as nat) {
            None => a,
            Some(n) => if arg == "--keep-alive-timeout"@ {
                ServerModel { keep_alive_timeout: n as u64, ..a }
            } else if arg == "--rate-limit-window"@ {
                ServerModel { rate_limit_window: n as u64, ..a }
            } else {
                ServerModel {
                    watch_interval: Some(
                        if n < 1 {
                            1
                        } else {
                            n as u64
                        },
                    ),
                    ..a
                }
            },
        }
    }
}

/// The arguments after an option that stands alone.
pub open spec fn with_flag(arg: Seq<char>, a: ServerModel) -> ServerModel {
    if arg == "--no-tcp-nodelay"@ {
        ServerModel { tcp_nodelay: false, ..a }
    } else if arg == "--no-tls"@ || arg == "--plain"@ {
        ServerModel { no_tls: true, ..a }
    } else if arg == "--watch"@ {
        if a.watch_interval is None {
            ServerModel { watch_interval: Some(5), ..a }
        } else {
            a
        }
    } else if arg == "-v"@ || arg == "--verbose"@ {
        ServerModel { verbose: true, ..a }
    } else {
        a
    }
}

/// What these arguments amount to; `None` if they ask for help.
pub open spec fn args_after(args: Seq<Seq<char>>, a: ServerModel) -> Option<ServerModel>
    decreases args.len(),
{
    if args.len() == 0 {
        Some(a)
    } else if args[0] == "-h"@ || args[0] == "--help"@ {
        None
    } else if takes_value(args[0]) {
        if args.len() == 1 {
            Some(a)
        } else {
            args_after(args.skip(2), with_value(args[0], args[1], a))
        }
    } else {
        args_after(args.skip(1), with_flag(args[0], a))
    }
}

fn is_arg(arg: &str, word: &str) -> (r: bool)
    ensures
        r == (arg@ == word@),
{
    same_text(arg, word)
}

fn expects_value(arg: &str) -> (r: bool)
    ensures
        r == takes_value(arg@),
{
    is_arg(arg, "--bind") || is_arg(arg, "--images") || is_arg(arg, "--images-dir") || is_arg(
        arg,
        "--cert",
    ) || is_arg(arg, "--key") || is_arg(arg, "--only") || is_arg(arg, "--name-contains") || is_arg(
        arg,
        "--compression-threshold",
    ) || is_arg(arg, "--compress-threshold") || is_arg(arg, "--keep-alive-timeout") || is_arg(
        arg,
        "--rate-limit",
    ) || is_arg(arg, "--rate-limit-window") || is_arg(arg, "--watch-interval")
}

fn set_value(a: &mut ServerArgs, arg: &str, value: &str)
    requires
        takes_value(arg@),
    ensures
        final(a)@ == with_value(arg@, value@, old(a)@),
{
    if is_arg(arg, "--bind") {
        a.bind = value.to_owned();
    } else if is_arg(arg, "--images") || is_arg(arg, "--images-dir") {
        a.images_dir = value.to_owned();
    } else if is_arg(arg, "--cert") {
        a.cert_path = value.to_owned();
    } else if is_arg(arg, "--key") {
        a.key_path = value.to_owned();
    } else if is_arg(arg, "--only") || is_arg(arg, "--name-contains") {
        a.only_name_contains = Some(value.to_owned());
    } else if is_arg(arg, "--compression-threshold") || is_arg(arg, "--compress-threshold") {
        let ghost before = a.compression_thresholds@;
        a.compression_thresholds.push(value.to_owned());
        proof {
            assert(text_models(a.compression_thresholds@) =~= text_models(before).push(value@));
        }
    } else if is_arg(arg, "--rate-limit") {
        if let Some(n) = parse_number(&chars_of(value), usize::MAX as u64) {
            a.rate_limit = Some(n as usize);
        }
    } else if let Some(n) = parse_number(&chars_of(value), u64::MAX) {
        if is_arg(arg, "--keep-alive-timeout") {
            a.keep_alive_timeout = n;
        } else if is_arg(arg, "--rate-limit-window") {
            a.rate_limit_window = n;
        } else {
            a.watch_interval = Some(
                if n < 1 {
                    1
                } else {
                    n
                },
            );
        }
    }
}

fn set_flag(a: &mut ServerArgs, arg: &str)
    ensures
        final(a)@ == with_flag(arg@, old(a)@),
{
    if is_arg(arg, "--no-tcp-nodelay") {
        a.tcp_nodelay = false;
    } else if is_arg(arg, "--no-tls") || is_arg(arg, "--plain") {
        a.no_tls = true;
    } else if is_arg(arg, "--watch") {
        if a.watch_interval.is_none() {
            a.watch_interval = Some(5);
        }
    } else if is_arg(arg, "-v") || is_arg(arg, "--verbose") {
        a.verbose = true;
    }
}

/// Parses the arguments of the server, without the program's name; `None` if
/// they ask for help. Arguments that are not known are ignored.
pub fn parse_args(args: &[String]) -> (r: Option<ServerArgs>)
    ensures
        match args_after(text_models(args@), default_args()) {
            Some(a) => r matches Some(parsed) && parsed@ == a,
            None => r is None,
        },
{
    let mut a = ServerArgs {
        bind: "0.0.0.0:8443".to_owned(),
        images_dir: "images".to_owned(),
        cert_path: "cert.pem".to_owned(),
        key_path: "key.pem".to_owned(),
        only_name_contains: None,
        compression_thresholds: Vec::new(),
        verbose: false,
        keep_alive_timeout: 30,
        tcp_nodelay: true,
        no_tls: false,
        rate_limit: None,
        rate_limit_window: 1,
        watch_interval: None,
    };
    let ghost models = text_models(args@);
    let n: usize = args.len();
    let mut i: usize = 0;
    proof {
        assert(models.skip(0) =~= models);
        assert(a@ =~= default_args());
    }
    while i < n
        invariant
            i <= n == args@.len(),
            models == text_models(args@),
            args_after(models, default_args()) == args_after(models.skip(i as int), a@),
        ensures
            args_after(models, default_args()) == Some(a@),
        decreases n - i,
    {
        let ghost rest = models.skip(i as int);
        proof {
            assert(rest[0] == args@[i as int]@);
        }
        if is_arg(&args[i], "-h") || is_arg(&args[i], "--help") {
            return None;
        }
        if expects_value(&args[i]) {
            if i + 1 == n {
                break;
            }
            proof {
                assert(rest[1] == args@[i + 1]@);
                assert(rest.skip(2) =~= models.skip(i + 2));
            }
            set_value(&mut a, &args[i], &args[i + 1]);
            i = i + 2;
        } else {
            proof {
                assert(rest.skip(1) =~= models.skip(i + 1));
            }
            set_flag(&mut a, &args[i]);
            i = i + 1;
        }
    }
    Some(a)
}

proof fn lemma_interval_kept(args: Seq<Seq<char>>, a: ServerModel)
    requires
        a.watch_interval matches Some(s) ==> s >= 1,
    ensures
        args_after(args, a) matches Some(b) ==> (b.watch_interval matches Some(s) ==> s >= 1),
    decreases args.len(),
{
    if args.len() > 0 && !(args[0] == "-h"@ || args[0] == "--help"@) {
        if takes_value(args[0]) {
            if args.len() > 1 {
                lemma_interval_kept(args.skip(2), with_value(args[0], args[1], a));
            }
        } else {
            lemma_interval_kept(args.skip(1), with_flag(args[0], a));
        }
    }
}

/// Whatever the arguments are, rescans are at least a second apart.
pub proof fn law_rescans_are_apart(args: Seq<Seq<char>>)
    ensures
        args_after(args, default_args()) matches Some(a) ==> (a.watch_interval matches Some(s)
            ==> s >= 1),
{
    lemma_interval_kept(args, default_args());
}

proof fn lemma_option_words()
    ensures
        "--bind"@.len() == 6 && "--bind"@[2] == 'b',
        "--images"@.len() == 8 && "--images"@[2] == 'i',
        "--images-dir"@.len() == 12 && "--images-dir"@[2] == 'i',
        "--cert"@.len() == 6 && "--cert"@[2] == 'c',
        "--key"@.len() == 5 && "--key"@[2] == 'k',
        "--only"@.len() == 6 && "--only"@[2] == 'o',
        "--name-contains"@.len() == 15 && "--name-contains"@[2] == 'n',
        "--compression-threshold"@.len() == 23 && "--compression-threshold"@[2] == 'c',
        "--compress-threshold"@.len() == 20 && "--compress-threshold"@[2] == 'c',
        "--keep-alive-timeout"@.len() == 20 && "--keep-alive-timeout"@[2] == 'k',
        "--rate-limit"@.len() == 12 && "--rate-limit"@[2] == 'r',
        "--rate-limit-window"@.len() == 19 && "--rate-limit-window"@[2] == 'r',
        "--watch-interval"@.len() == 16 && "--watch-interval"@[2] == 'w',
        "-h"@.len() == 2 && "-h"@[1] == 'h',
        "--help"@.len() == 6 && "--help"@[2] == 'h',
        "--no-tcp-nodelay"@.len() == 16 && "--no-tcp-nodelay"@[2] == 'n',
        "--no-tls"@.len() == 8 && "--no-tls"@[2] == 'n',
        "--plain"@.len() == 7 && "--plain"@[2] == 'p',
        "--watch"@.len() == 7 && "--watch"@[2] == 'w',
        "-v"@.len() == 2 && "-v"@[1] == 'v',
        "--verbose"@.len() == 9 && "--verbose"@[2] == 'v',
        "--bind"@[0] == '-',
        "--images"@[0] == '-',
        "--images-dir"@[0] == '-',
        "--cert"@[0] == '-',
        "--key"@[0] == '-',
        "--only"@[0] == '-',
        "--name-contains"@[0] == '-',
        "--compression-threshold"@[0] == '-',
        "--compress-threshold"@[0] == '-',
        "--keep-alive-timeout"@[0] == '-',
        "--rate-limit"@[0] == '-',
        "--rate-limit-window"@[0] == '-',
        "--watch-interval"@[0] == '-',
        "-h"@[0] == '-',
        "--help"@[0] == '-',
        "--no-tcp-nodelay"@[0] == '-',
        "--no-tls"@[0] == '-',
        "--plain"@[0] == '-',
        "--watch"@[0] == '-',
        "-v"@[0] == '-',
        "--verbose"@[0] == '-',
{
    reveal_strlit("--bind");
    reveal_strlit("--images");
    reveal_strlit("--images-dir");
    reveal_strlit("--cert");
    reveal_strlit("--key");
    reveal_strlit("--only");
    reveal_strlit("--name-contains");
    reveal_strlit("--compression-threshold");
    reveal_strlit("--compress-threshold");
    reveal_strlit("--keep-alive-timeout");
    reveal_strlit("--rate-limit");
    reveal_strlit("--rate-limit-window");
    reveal_strlit("--watch-interval");
    reveal_strlit("-h");
    reveal_strlit("--help");
    reveal_strlit("--no-tcp-nodelay");
    reveal_strlit("--no-tls");
    reveal_strlit("--plain");
    reveal_strlit("--watch");
    reveal_strlit("-v");
    reveal_strlit("--verbose");
}

/// Each option that takes a value sets what it is for to that value, changes
/// nothing else, and what follows is read as if it stood alone. A number that
/// is none changes nothing. Without a value such an option changes nothing.
pub proof fn law_server_values(v: Seq<char>, rest: Seq<Seq<char>>, a: ServerModel)
    ensures
        args_after(seq!["--bind"@, v] + rest, a) == args_after(rest, ServerModel { bind: v, ..a }),
        args_after(seq!["--images"@, v] + rest, a) == args_after(rest, ServerModel { images_dir: v, ..a }),
        args_after(seq!["--images-dir"@, v] + rest, a) == args_after(rest, ServerModel { images_dir: v, ..a }),
        args_after(seq!["--cert"@, v] + rest, a) == args_after(rest, ServerModel { cert_path: v, ..a }),
        args_after(seq!["--key"@, v] + rest, a) == args_after(rest, ServerModel { key_path: v, ..a }),
        args_after(seq!["--only"@, v] + rest, a) == args_after(rest, ServerModel { only_name_contains: Some(v), ..a }),
        args_after(seq!["--name-contains"@, v] + rest, a) == args_after(rest, ServerModel { only_name_contains: Some(v), ..a }),
        args_after(seq!["--compression-threshold"@, v] + rest, a) == args_after(rest, ServerModel {
            compression_thresholds: a.compression_thresholds.push(v),
            ..a
        }),
        args_after(seq!["--compress-threshold"@, v] + rest, a) == args_after(rest, ServerModel {
            compression_thresholds: a.compression_thresholds.push(v),
            ..a
        }),
        args_after(seq!["--keep-alive-timeout"@, v] + rest, a) == args_after(rest, (match number_in(v, u64::MAX as nat) {
            Some(n) => ServerModel { keep_alive_timeout: n as u64, ..a },
            None => a,
        })),
        args_after(seq!["--rate-limit"@, v] + rest, a) == args_after(rest, (match number_in(v, usize::MAX as nat) {
            Some(n) => ServerModel { rate_limit: Some(n as usize), ..a },
            None => a,
        })),
        args_after(seq!["--rate-limit-window"@, v] + rest, a) == args_after(rest, (match number_in(v, u64::MAX as nat) {
            Some(n) => ServerModel { rate_limit_window: n as u64, ..a },
            None => a,
        })),
        args_after(seq!["--watch-interval"@, v] + rest, a) == args_after(rest, (match number_in(v, u64::MAX as nat) {
            Some(n) => ServerModel { watch_interval: Some((if n == 0 { 1 } else { n }) as u64), ..a },
            None => a,
        })),
        args_after(seq!["--bind"@], a) == Some(a),
        args_after(seq!["--images"@], a) == Some(a),
        args_after(seq!["--images-dir"@], a) == Some(a),
        args_after(seq!["--cert"@], a) == Some(a),
        args_after(seq!["--key"@], a) == Some(a),
        args_after(seq!["--only"@], a) == Some(a),
        args_after(seq!["--name-contains"@], a) == Some(a),
        args_after(seq!["--compression-threshold"@], a) == Some(a),
        args_after(seq!["--compress-threshold"@], a) == Some(a),
        args_after(seq!["--keep-alive-timeout"@], a) == Some(a),
        args_after(seq!["--rate-limit"@], a) == Some(a),
        args_after(seq!["--rate-limit-window"@], a) == Some(a),
        args_after(seq!["--watch-interval"@], a) == Some(a),
{
    lemma_option_words();
    assert((seq!["--bind"@, v] + rest).skip(2) =~= rest);
    assert((seq!["--images"@, v] + rest).skip(2) =~= rest);
    assert((seq!["--images-dir"@, v] + rest).skip(2) =~= rest);
    assert((seq!["--cert"@, v] + rest).skip(2) =~= rest);
    assert((seq!["--key"@, v] + rest).skip(2) =~= rest);
    assert((seq!["--only"@, v] + rest).skip(2) =~= rest);
    assert((seq!["--name-contains"@, v] + rest).skip(2) =~= rest);
    assert((seq!["--compression-threshold"@, v] + rest).skip(2) =~= rest);
    assert((seq!["--compress-threshold"@, v] + rest).skip(2) =~= rest);
    assert((seq!["--keep-alive-timeout"@, v] + rest).skip(2) =~= rest);
    assert((seq!["--rate-limit"@, v] + rest).skip(2) =~= rest);
    assert((seq!["--rate-limit-window"@, v] + rest).skip(2) =~= rest);
    assert((seq!["--watch-interval"@, v] + rest).skip(2) =~= rest);
}

/// Each option that stands alone sets what it is for, changes nothing else, and
/// what follows is read as if it stood alone; arguments that are no options
/// are ignored. Asking for help ends it all.
pub proof fn law_server_flags(arg: Seq<char>, rest: Seq<Seq<char>>, a: ServerModel)
    ensures
        args_after(seq!["--no-tcp-nodelay"@] + rest, a) == args_after(rest, ServerModel { tcp_nodelay: false, ..a }),
        args_after(seq!["--no-tls"@] + rest, a) == args_after(rest, ServerModel { no_tls: true, ..a }),
        args_after(seq!["--plain"@] + rest, a) == args_after(rest, ServerModel { no_tls: true, ..a }),
        args_after(seq!["-v"@] + rest, a) == args_after(rest, ServerModel { verbose: true, ..a }),
        args_after(seq!["--verbose"@] + rest, a) == args_after(rest, ServerModel { verbose: true, ..a }),
        args_after(seq!["--watch"@] + rest, a) == args_after(rest, ServerModel {
            watch_interval: if a.watch_interval is None { Some(5u64) } else { a.watch_interval },
            ..a
        }),
        args_after(seq!["-h"@] + rest, a) is None,
        args_after(seq!["--help"@] + rest, a) is None,
        args_after(Seq::empty(), a) == Some(a),
        arg.len() == 0 || arg[0] != '-' ==> args_after(seq![arg] + rest, a) == args_after(rest, a),
{
    lemma_option_words();
    assert((seq![arg] + rest).skip(1) =~= rest);
    assert((seq!["--no-tcp-nodelay"@] + rest).skip(1) =~= rest);
    assert((seq!["--no-tls"@] + rest).skip(1) =~= rest);
    assert((seq!["--plain"@] + rest).skip(1) =~= rest);
    assert((seq!["-v"@] + rest).skip(1) =~= rest);
    assert((seq!["--verbose"@] + rest).skip(1) =~= rest);
    assert((seq!["--watch"@] + rest).skip(1) =~= rest);
}

/// The documented defaults.
pub proof fn law_server_defaults()
    ensures
        ({
            let d = default_args();
            &&& d.bind == "0.0.0.0:8443"@ && d.images_dir == "images"@
            &&& d.cert_path == "cert.pem"@ && d.key_path == "key.pem"@
            &&& d.only_name_contains is None && d.compression_thresholds.len() == 0
            &&& d.keep_alive_timeout == 30 && d.rate_limit_window == 1
            &&& d.rate_limit is None && d.watch_interval is None
            &&& d.tcp_nodelay && !d.no_tls && !d.verbose
        }),
{
}

/// The model of the arguments says all that they hold.
pub proof fn law_server_arguments(a: ServerArgs)
    ensures
        a@.bind == a.bind@,
        a@.images_dir == a.images_dir@,
        a@.cert_path == a.cert_path@,
        a@.key_path == a.key_path@,
        a.only_name_contains matches Some(text) ==> a@.only_name_contains == Some(text@),
        a.only_name_contains is None ==> a@.only_name_contains is None,
        a@.compression_thresholds.len() == a.compression_thresholds@.len(),
        forall|i: int|
            0 <= i < a.compression_thresholds@.len() ==> #[trigger] a@.compression_thresholds[i]
                == a.compression_thresholds@[i]@,
        a@.verbose == a.verbose,
        a@.keep_alive_timeout == a.keep_alive_timeout,
        a@.tcp_nodelay == a.tcp_nodelay,
        a@.no_tls == a.no_tls,
        a@.rate_limit == a.rate_limit,
        a@.rate_limit_window == a.rate_limit_window,
        a@.watch_interval == a.watch_interval,
{
}

/// An argument that starts with a dash and is no option is ignored, without
/// what follows it.
pub proof fn law_server_ignores_unknown(arg: Seq<char>, rest: Seq<Seq<char>>, o: ServerModel)
    requires
        arg.len() > 0,
        arg[0] == '-',
        arg != "--bind"@,
        arg != "--images"@,
        arg != "--images-dir"@,
        arg != "--cert"@,
        arg != "--key"@,
        arg != "--only"@,
        arg != "--name-contains"@,
        arg != "--compression-threshold"@,
        arg != "--compress-threshold"@,
        arg != "--keep-alive-timeout"@,
        arg != "--rate-limit"@,
        arg != "--rate-limit-window"@,
        arg != "--watch-interval"@,
        arg != "-h"@,
        arg != "--help"@,
        arg != "--no-tcp-nodelay"@,
        arg != "--no-tls"@,
        arg != "--plain"@,
        arg != "--watch"@,
        arg != "-v"@,
        arg != "--verbose"@,
    ensures
        args_after(seq![arg] + rest, o) == args_after(rest, o),
{
    assert((seq![arg] + rest).skip(1) =~= rest);
}

} // verus!
