use vstd::prelude::*;

use crate::store_path::spec_has_prefix;
use crate::store_path::str_has_prefix;
use crate::util::str_eq;

verus! {

/// What the command line asked for.
#[derive(Debug, Clone, Default)]
pub struct Config {
    pub paths: Vec<String>,
    pub derivation: bool,
    pub store: Option<String>,
    pub help: bool,
    pub version: bool,
    pub nix_options: Vec<(String, String)>,
    pub file: Option<String>,
}

/// The mathematical content of a configuration.
pub ghost struct ConfigView {
    pub paths: Seq<Seq<char>>,
    pub derivation: bool,
    pub store: Option<Seq<char>>,
    pub help: bool,
    pub version: bool,
    pub nix_options: Seq<(Seq<char>, Seq<char>)>,
    pub file: Option<Seq<char>>,
}

impl View for Config {
    type V = ConfigView;

    open spec fn view(&self) -> ConfigView {
        ConfigView {
            paths: self.paths.deep_view(),
            derivation: self.derivation,
            store: match self.store {
                Some(ref s) => Some(s@),
                None => None,
            },
            help: self.help,
            version: self.version,
            nix_options: self.nix_options.deep_view(),
            file: match self.file {
                Some(ref s) => Some(s@),
                None => None,
            },
        }
    }
}

/// Why the command line was rejected.
#[derive(Debug, Clone, PartialEq, Eq)]
pub enum CliError {
    MissingStoreArgument,
    MissingOptionArguments,
    MissingFileArgument,
    UnknownOption(String),
}

/// The configuration with nothing asked for yet.
pub open spec fn empty_config() -> ConfigView {
    ConfigView {
        paths: Seq::empty(),
        derivation: false,
        store: None,
        help: false,
        version: false,
        nix_options: Seq::empty(),
        file: None,
    }
}

/// What parsing yields: a configuration, or the reason the arguments were
/// rejected, with the offending word for an unknown option.
pub ghost enum ParseOutcome {
    Done(ConfigView),
    MissingStore,
    MissingOption,
    MissingFile,
    Unknown(Seq<char>),
}

/// Parses the argument words from position `i` on into `acc`: flags set
/// their fields, `--store`, `--option` and `-f`/`--file` consume the
/// following words, `--store=`/`--file=` carry their value inline, any other
/// word starting with a dash is unknown, anything else is a path to explore.
/// A help or version request ends parsing at once.
pub open spec fn spec_parse_from(args: Seq<Seq<char>>, i: int, acc: ConfigView) -> ParseOutcome
    decreases args.len() - i,
{
    if i < 0 || i >= args.len() {
        ParseOutcome::Done(acc)
    } else {
        let a = args[i];
        if a == "-h"@ || a == "--help"@ {
            ParseOutcome::Done(ConfigView { help: true, ..acc })
        } else if a == "-v"@ || a == "--version"@ {
            ParseOutcome::Done(ConfigView { version: true, ..acc })
        } else if a == "-d"@ || a == "--derivation"@ {
            spec_parse_from(args, i + 1, ConfigView { derivation: true, ..acc })
        } else if a == "--store"@ {
            if i + 1 >= args.len() {
                ParseOutcome::MissingStore
            } else {
                spec_parse_from(args, i + 2, ConfigView { store: Some(args[i + 1]), ..acc })
            }
        } else if spec_has_prefix(a, "--store="@) {
            spec_parse_from(
                args,
                i + 1,
                ConfigView { store: Some(a.skip(8)), ..acc },
            )
        } else if a == "--option"@ {
            if i + 2 >= args.len() {
                ParseOutcome::MissingOption
            } else {
                spec_parse_from(
                    args,
                    i + 3,
                    ConfigView { nix_options: acc.nix_options.push((args[i + 1], args[i + 2])), ..acc },
                )
            }
        } else if a == "-f"@ || a == "--file"@ {
            if i + 1 >= args.len() {
                ParseOutcome::MissingFile
            } else {
                spec_parse_from(args, i + 2, ConfigView { file: Some(args[i + 1]), ..acc })
            }
        } else if spec_has_prefix(a, "--file="@) {
            spec_parse_from(args, i + 1, ConfigView { file: Some(a.skip(7)), ..acc })
        } else if a.len() > 0 && a[0] == '-' {
            ParseOutcome::Unknown(a)
        } else {
            spec_parse_from(args, i + 1, ConfigView { paths: acc.paths.push(a), ..acc })
        }
    }
}

/// Parses the argument words, the word at position zero (the program name)
/// skipped. Succeeds exactly when the words from position one on parse, and
/// each rejection names its reason.
pub fn parse_args(args: &Vec<String>) -> (r: Result<Config, CliError>)
    ensures
        ({
            let out = spec_parse_from(args.deep_view(), 1, empty_config());
            match r {
                Ok(c) => out == ParseOutcome::Done(c@),
                Err(e) => match e {
                    CliError::MissingStoreArgument => out is MissingStore,
                    CliError::MissingOptionArguments => out is MissingOption,
                    CliError::MissingFileArgument => out is MissingFile,
                    CliError::UnknownOption(a) => out == ParseOutcome::Unknown(a@),
                },
            }
        }),
{
    let ghost argv = args.deep_view();
    let mut config = Config {
        paths: Vec::new(),
        derivation: false,
        store: None,
        help: false,
        version: false,
        nix_options: Vec::new(),
        file: None,
    };
    proof {
        assert(config@.paths =~= empty_config().paths);
        assert(config@.nix_options =~= empty_config().nix_options);
        assert(config@ == empty_config());
    }
    let mut i: usize = 1;
    while i < args.len()
        invariant
            1 <= i,
            argv == args.deep_view(),
            argv.len() == args@.len(),
            spec_parse_from(argv, 1, empty_config()) == spec_parse_from(argv, i as int, config@),
        decreases args@.len() - i,
    {
        proof {
            assert(argv[i as int] == args@[i as int]@);
        }
        let a = &args[i];
        let ghost av = a@;
        let ghost pre = config@;
        if str_eq(a.as_str(), "-h") || str_eq(a.as_str(), "--help") {
            config.help = true;
            proof {
                assert(config@ == (ConfigView { help: true, ..pre }));
            }
            return Ok(config);
        } else if str_eq(a.as_str(), "-v") || str_eq(a.as_str(), "--version") {
            config.version = true;
            proof {
                assert(config@ == (ConfigView { version: true, ..pre }));
            }
            return Ok(config);
        } else if str_eq(a.as_str(), "-d") || str_eq(a.as_str(), "--derivation") {
            config.derivation = true;
            proof {
                assert(config@ == (ConfigView { derivation: true, ..pre }));
            }
            i += 1;
        } else if str_eq(a.as_str(), "--store") {
            if i + 1 >= args.len() {
                return Err(CliError::MissingStoreArgument);
            }
            proof {
                assert(argv[i as int + 1] == args@[i as int + 1]@);
            }
            config.store = Some(args[i + 1].clone());
            proof {
                assert(config@ == (ConfigView { store: Some(argv[i as int + 1]), ..pre }));
            }
            i += 2;
        } else if str_has_prefix(a.as_str(), "--store=") {
            let n = a.as_str().unicode_len();
            proof {
                reveal_strlit("--store=");
            }
            let value = a.as_str().substring_char(8, n).to_owned();
            proof {
                assert(value@ =~= av.skip(8));
            }
            config.store = Some(value);
            proof {
                assert(config@ == (ConfigView { store: Some(av.skip(8)), ..pre }));
            }
            i += 1;
        } else if str_eq(a.as_str(), "--option") {
            if args.len() - i <= 2 {
                return Err(CliError::MissingOptionArguments);
            }
            proof {
                assert(argv[i as int + 1] == args@[i as int + 1]@);
                assert(argv[i as int + 2] == args@[i as int + 2]@);
            }
            let name = args[i + 1].clone();
            let value = args[i + 2].clone();
            config.nix_options.push((name, value));
            proof {
                assert(config@.nix_options =~= pre.nix_options.push(
                    (argv[i as int + 1], argv[i as int + 2]),
                ));
                assert(config@ == (ConfigView {
                    nix_options: pre.nix_options.push((argv[i as int + 1], argv[i as int + 2])),
                    ..pre
                }));
            }
            i += 3;
        } else if str_eq(a.as_str(), "-f") || str_eq(a.as_str(), "--file") {
            if i + 1 >= args.len() {
                return Err(CliError::MissingFileArgument);
            }
            proof {
                assert(argv[i as int + 1] == args@[i as int + 1]@);
            }
            config.file = Some(args[i + 1].clone());
            proof {
                assert(config@ == (ConfigView { file: Some(argv[i as int + 1]), ..pre }));
            }
            i += 2;
        } else if str_has_prefix(a.as_str(), "--file=") {
            let n = a.as_str().unicode_len();
            proof {
                reveal_strlit("--file=");
            }
            let value = a.as_str().substring_char(7, n).to_owned();
            proof {
                assert(value@ =~= av.skip(7));
            }
            config.file = Some(value);
            proof {
                assert(config@ == (ConfigView { file: Some(av.skip(7)), ..pre }));
            }
            i += 1;
        } else {
            let n = a.as_str().unicode_len();
            if n > 0 && a.as_str().get_char(0) == '-' {
                return Err(CliError::UnknownOption(a.clone()));
            }
            config.paths.push(a.clone());
            proof {
                assert(config@.paths =~= pre.paths.push(av));
                assert(config@ == (ConfigView { paths: pre.paths.push(av), ..pre }));
            }
            i += 1;
        }
    }
    Ok(config)
}

} // verus!
