//! The command line.

use vstd::prelude::*;

use crate::text::str_eq;

verus! {

/// What the command line says.
#[derive(Debug)]
pub struct Args {
    pub listen: String,
    pub data_dir: String,
}

/// The model of [`Args`].
#[verifier::ext_equal]
pub struct ArgsModel {
    pub listen: Seq<char>,
    pub data_dir: Seq<char>,
}

impl DeepView for Args {
    type V = ArgsModel;

    open spec fn deep_view(&self) -> ArgsModel {
        ArgsModel { listen: self.listen@, data_dir: self.data_dir@ }
    }
}

/// Where to listen and where to store unless the command line says otherwise.
pub open spec fn default_args() -> ArgsModel {
    ArgsModel { listen: "127.0.0.1:5213"@, data_dir: "workbench-data"@ }
}

/// What arguments from a place on say, on top of what was said before; the last of several counts.
pub open spec fn args_from(argv: Seq<Seq<char>>, i: int, said: ArgsModel) -> Result<
    ArgsModel,
    Seq<char>,
>
    decreases argv.len() - i,
{
    if i < 0 || i >= argv.len() {
        Ok(said)
    } else if argv[i] == "--listen"@ {
        if i + 1 < argv.len() {
            args_from(argv, i + 2, ArgsModel { listen: argv[i + 1], ..said })
        } else {
            Err("missing value for --listen"@)
        }
    } else if argv[i] == "--data-dir"@ {
        if i + 1 < argv.len() {
            args_from(argv, i + 2, ArgsModel { data_dir: argv[i + 1], ..said })
        } else {
            Err("missing value for --data-dir"@)
        }
    } else {
        Err("unknown argument: "@ + argv[i])
    }
}

/// Reads the command line; its first argument is the name of the program.
pub fn parse_args(argv: Vec<String>) -> (r: Result<Args, String>)
    ensures
        match args_from(argv.deep_view(), 1, default_args()) {
            Ok(said) => r is Ok && r->Ok_0.deep_view() == said,
            Err(message) => r is Err && r->Err_0@ == message,
        },
{
    let ghost model = argv.deep_view();
    let mut listen: String = "127.0.0.1:5213".to_owned();
    let mut data_dir: String = "workbench-data".to_owned();
    let mut i: usize = 1;
    proof {
        assert(ArgsModel { listen: listen@, data_dir: data_dir@ } == default_args());
    }
    while i < argv.len()
        invariant
            model == argv.deep_view(),
            1 <= i <= argv@.len() || argv@.len() == 0,
            1 <= i,
            args_from(model, 1, default_args()) == args_from(
                model,
                i as int,
                (ArgsModel { listen: listen@, data_dir: data_dir@ }),
            ),
        decreases argv@.len() - i,
    {
        proof {
            assert(model[i as int] == argv@[i as int]@);
        }
        if str_eq(argv[i].as_str(), "--listen") {
            if i + 1 >= argv.len() {
                return Err("missing value for --listen".to_owned());
            }
            listen = argv[i + 1].clone();
        } else if str_eq(argv[i].as_str(), "--data-dir") {
            if i + 1 >= argv.len() {
                return Err("missing value for --data-dir".to_owned());
            }
            data_dir = argv[i + 1].clone();
        } else {
            let mut message = "unknown argument: ".to_owned();
            message.push_str(argv[i].as_str());
            return Err(message);
        }
        proof {
            assert(model[i + 1] == argv@[i + 1]@);
        }
        i += 2;
    }
    Ok(Args { listen, data_dir })
}

} // verus!
