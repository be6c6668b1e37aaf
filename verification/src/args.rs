//! Program arguments: the listening port and the database path, with the
//! flag parser that fills them in.

use vstd::prelude::*;

use vstd::string::StringExecFns;

verus! {

/// The program's settings after argument parsing.
pub struct ProgArgs {
    pub port: String,
    pub sql_path: String,
}

#[verifier::ext_equal]
pub ghost struct ProgArgsView {
    pub port: Seq<char>,
    pub sql_path: Seq<char>,
}

impl View for ProgArgs {
    type V = ProgArgsView;

    open spec fn view(&self) -> ProgArgsView {
        ProgArgsView { port: self.port@, sql_path: self.sql_path@ }
    }
}

impl ProgArgs {
    /// The built-in defaults: port 8081 and a database file beside the
    /// binary.
    pub fn default_value() -> (r: ProgArgs)
        ensures
            r.port@ == "8081"@,
            r.sql_path@ == "./db.sqlite"@,
    {
        ProgArgs { port: String::from_str("8081"), sql_path: String::from_str("./db.sqlite") }
    }
}

/// What the settings are after the parser has processed the arguments from
/// index `i` on, starting from `cur`: `-p`/`--port` and `-d`/`--databse`
/// each take the following argument as their value when one exists, and
/// anything else is ignored.
pub open spec fn parse_model(args: Seq<Seq<char>>, i: int, cur: ProgArgsView) -> ProgArgsView
    decreases args.len() + 1 - i,
{
    if i < 0 || i >= args.len() {
        cur
    } else if args[i] == "-p"@ || args[i] == "--port"@ {
        if i + 1 <= args.len() - 1 {
            parse_model(args, i + 2, ProgArgsView { port: args[i + 1], ..cur })
        } else {
            parse_model(args, i + 2, cur)
        }
    } else if args[i] == "-d"@ || args[i] == "--databse"@ {
        if i + 1 <= args.len() - 1 {
            parse_model(args, i + 2, ProgArgsView { sql_path: args[i + 1], ..cur })
        } else {
            parse_model(args, i + 2, cur)
        }
    } else {
        parse_model(args, i + 1, cur)
    }
}

/// Parse the command line (element 0 being the program name) into settings,
/// starting from the defaults.  Parsing never fails.
pub fn parse_args(args: Vec<String>) -> (res: Option<ProgArgs>)
    ensures
        res matches Option::Some(r) && r@ == parse_model(
            args@.map_values(|s: String| s@),
            1,
            ProgArgsView { port: "8081"@, sql_path: "./db.sqlite"@ },
        ),
{
    let ghost argv = args@.map_values(|s: String| s@);
    let ghost dflt = ProgArgsView { port: "8081"@, sql_path: "./db.sqlite"@ };
    let mut res = ProgArgs::default_value();
    proof {
        assert(res@ =~= dflt);
    }
    let p_short = String::from_str("-p");
    let p_long = String::from_str("--port");
    let d_short = String::from_str("-d");
    let d_long = String::from_str("--databse");
    let mut idx: usize = 1;
    while idx < args.len()
        invariant
            argv == args@.map_values(|s: String| s@),
            1 <= idx,
            p_short@ == "-p"@,
            p_long@ == "--port"@,
            d_short@ == "-d"@,
            d_long@ == "--databse"@,
            parse_model(argv, idx as int, res@) == parse_model(argv, 1, dflt),
        decreases args@.len() + 1 - idx,
    {
        let current_arg = &args[idx];
        proof {
            assert(argv[idx as int] == current_arg@);
        }
        if *current_arg == p_short || *current_arg == p_long {
            let ghost at_entry = res@;
            if idx + 1 <= args.len() - 1 {
                let ghost before = res@;
                res.port = args[idx + 1].clone();
                proof {
                    assert(res@ =~= ProgArgsView { port: argv[idx + 1], ..before });
                }
            }
            proof {
                assert(parse_model(argv, idx + 2 as int, res@) == parse_model(
                    argv,
                    idx as int,
                    at_entry,
                ));
            }
            if idx + 1 < args.len() {
                idx = idx + 2;
            } else {
                proof {
                    assert(parse_model(argv, args@.len() as int, res@) == parse_model(
                        argv,
                        idx + 2 as int,
                        res@,
                    ));
                }
                idx = args.len();
            }
        } else if *current_arg == d_short || *current_arg == d_long {
            let ghost at_entry = res@;
            if idx + 1 <= args.len() - 1 {
                let ghost before = res@;
                res.sql_path = args[idx + 1].clone();
                proof {
                    assert(res@ =~= ProgArgsView { sql_path: argv[idx + 1], ..before });
                }
            }
            proof {
                assert(parse_model(argv, idx + 2 as int, res@) == parse_model(
                    argv,
                    idx as int,
                    at_entry,
                ));
            }
            if idx + 1 < args.len() {
                idx = idx + 2;
            } else {
                proof {
                    assert(parse_model(argv, args@.len() as int, res@) == parse_model(
                        argv,
                        idx + 2 as int,
                        res@,
                    ));
                }
                idx = args.len();
            }
        } else {
            idx += 1;
        }
    }
    Some(res)
}

} // verus!
