//! The command-line surface: which flags were given, and which values
//! follow the options that take one.

use vstd::prelude::*;

verus! {

/// What the command line asks for. The density and speed options keep,
/// in order, every value that followed them; the last value that reads as
/// a number wins.
pub struct Arguments {
    pub interactive: bool,
    pub windowed: bool,
    pub density_values: Vec<String>,
    pub speed_values: Vec<String>,
}

/// The model of [`Arguments`].
pub struct ArgumentsView {
    pub interactive: bool,
    pub windowed: bool,
    pub density_values: Seq<String>,
    pub speed_values: Seq<String>,
}

impl View for Arguments {
    type V = ArgumentsView;

    open spec fn view(&self) -> ArgumentsView {
        ArgumentsView {
            interactive: self.interactive,
            windowed: self.windowed,
            density_values: self.density_values@,
            speed_values: self.speed_values@,
        }
    }
}

pub open spec fn is_interactive_flag(argument: String) -> bool {
    argument@ == "--interactive"@ || argument@ == "-i"@
}

pub open spec fn is_windowed_flag(argument: String) -> bool {
    argument@ == "--windowed"@ || argument@ == "-w"@
}

pub open spec fn is_density_option(argument: String) -> bool {
    argument@ == "--density"@
}

pub open spec fn is_speed_option(argument: String) -> bool {
    argument@ == "--speed"@
}

/// What `arguments` ask for, read from the first: a flag sets its switch,
/// an option takes the argument after it as its value (whatever it is),
/// and anything else is ignored.
pub open spec fn read_arguments(arguments: Seq<String>) -> ArgumentsView
    decreases arguments.len(),
{
    if arguments.len() == 0 {
        ArgumentsView {
            interactive: false,
            windowed: false,
            density_values: Seq::empty(),
            speed_values: Seq::empty(),
        }
    } else {
        let first = arguments[0];
        if is_interactive_flag(first) {
            ArgumentsView { interactive: true, ..read_arguments(arguments.drop_first()) }
        } else if is_windowed_flag(first) {
            ArgumentsView { windowed: true, ..read_arguments(arguments.drop_first()) }
        } else if is_density_option(first) && arguments.len() >= 2 {
            let rest = read_arguments(arguments.subrange(2, arguments.len() as int));
            ArgumentsView { density_values: seq![arguments[1]] + rest.density_values, ..rest }
        } else if is_speed_option(first) && arguments.len() >= 2 {
            let rest = read_arguments(arguments.subrange(2, arguments.len() as int));
            ArgumentsView { speed_values: seq![arguments[1]] + rest.speed_values, ..rest }
        } else {
            read_arguments(arguments.drop_first())
        }
    }
}

/// What was read from a prefix of the arguments, followed by what the rest
/// asks for.
pub open spec fn followed_by(read: ArgumentsView, rest: ArgumentsView) -> ArgumentsView {
    ArgumentsView {
        interactive: read.interactive || rest.interactive,
        windowed: read.windowed || rest.windowed,
        density_values: read.density_values + rest.density_values,
        speed_values: read.speed_values + rest.speed_values,
    }
}

fn same_text(argument: &String, text: &str) -> (same: bool)
    ensures
        same == (argument@ == text@),
{
    let text = text.to_owned();
    *argument == text
}

/// Reads `LifeSaver`'s deliberately small command-line surface from the
/// arguments after the program name.
pub fn read(arguments: &Vec<String>) -> (read: Arguments)
    ensures
        read@ == read_arguments(arguments@),
{
    let ghost all = arguments@;
    let mut result = Arguments {
        interactive: false,
        windowed: false,
        density_values: Vec::new(),
        speed_values: Vec::new(),
    };
    let mut i: usize = 0;
    assert(all.subrange(0, all.len() as int) =~= all);
    while i < arguments.len()
        invariant
            all == arguments@,
            i <= all.len(),
            followed_by(result@, read_arguments(all.subrange(i as int, all.len() as int)))
                == read_arguments(all),
        decreases all.len() - i,
    {
        let ghost rest = all.subrange(i as int, all.len() as int);
        let argument = &arguments[i];
        assert(rest[0] == *argument);
        if same_text(argument, "--interactive") || same_text(argument, "-i") {
            result.interactive = true;
            i += 1;
            assert(rest.drop_first() =~= all.subrange(i as int, all.len() as int));
        } else if same_text(argument, "--windowed") || same_text(argument, "-w") {
            result.windowed = true;
            i += 1;
            assert(rest.drop_first() =~= all.subrange(i as int, all.len() as int));
        } else if same_text(argument, "--density") && i + 1 < arguments.len() {
            let ghost before = result.density_values@;
            result.density_values.push(arguments[i + 1].clone());
            assert(rest[1] == all[i + 1]);
            i += 2;
            assert(rest.subrange(2, rest.len() as int) =~= all.subrange(i as int, all.len() as int));
            assert(result.density_values@ =~= before + seq![all[i - 1]]);
            assert forall|tail: Seq<String>| #![auto] result.density_values@ + tail =~= before + (seq![all[i - 1]] + tail) by {
            }
        } else if same_text(argument, "--speed") && i + 1 < arguments.len() {
            let ghost before = result.speed_values@;
            result.speed_values.push(arguments[i + 1].clone());
            assert(rest[1] == all[i + 1]);
            i += 2;
            assert(rest.subrange(2, rest.len() as int) =~= all.subrange(i as int, all.len() as int));
            assert(result.speed_values@ =~= before + seq![all[i - 1]]);
            assert forall|tail: Seq<String>| #![auto] result.speed_values@ + tail =~= before + (seq![all[i - 1]] + tail) by {
            }
        } else {
            i += 1;
            assert(rest.drop_first() =~= all.subrange(i as int, all.len() as int));
        }
    }
    assert(result.density_values@ + Seq::<String>::empty() =~= result.density_values@);
    assert(result.speed_values@ + Seq::<String>::empty() =~= result.speed_values@);
    result
}

} // verus!
