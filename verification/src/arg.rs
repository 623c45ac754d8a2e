//! Argument definitions and their fluent configuration methods.

use vstd::prelude::*;

verus! {

/// The role an argument definition plays during parsing.
///
/// `Param(consumed)` marks a positional parameter together with the flag
/// recording whether its slot has been filled; `Input` is an option whose
/// long or short form must be followed by a value token; `Flag` stands
/// alone; `Unset` is the state of a freshly created definition before a
/// role has been chosen.
#[derive(Clone, Copy, Debug, PartialEq, Eq, Structural)]
pub enum ArgKind {
    Unset,
    Param(bool),
    Input,
    Flag,
}

/// The mathematical content of one argument definition: its name as a
/// character sequence, its role, whether a value token must follow its
/// invocation, and its optional single-character alias.
#[verifier::ext_equal]
pub struct ArgModel {
    pub name: Seq<char>,
    pub kind: ArgKind,
    pub expecting: bool,
    pub short: Option<char>,
}

/// One recognized argument: a named definition built by chaining the
/// configuration methods, then registered with a parser.
#[derive(Debug)]
pub struct Arg {
    /// Canonical name; the token `--<name>` invokes this definition, and
    /// the name is the key under which the result mapping reports it.
    pub name: String,
    /// Role of the definition.
    pub kind: ArgKind,
    /// Whether a value token must follow the long or short form.
    pub expecting: bool,
    /// Optional single-character alias; the token `-<c>` invokes it.
    pub short: Option<char>,
}

impl View for Arg {
    type V = ArgModel;

    open spec fn view(&self) -> ArgModel {
        ArgModel { name: self.name@, kind: self.kind, expecting: self.expecting, short: self.short }
    }
}

impl DeepView for Arg {
    type V = ArgModel;

    open spec fn deep_view(&self) -> ArgModel {
        self.view()
    }
}

/// The definition `Arg::new` returns: empty name, no role, no alias.
pub open spec fn blank_arg() -> ArgModel {
    ArgModel { name: Seq::empty(), kind: ArgKind::Unset, expecting: false, short: None }
}

/// What `Arg::param` does: positional parameter with an unconsumed slot,
/// consuming the current token itself rather than a following one; the
/// short alias is kept.
pub open spec fn with_param(a: ArgModel, name: Seq<char>) -> ArgModel {
    ArgModel { name: name, kind: ArgKind::Param(false), expecting: false, short: a.short }
}

/// What `Arg::input` does: value-expecting option; the short alias is kept.
pub open spec fn with_input(a: ArgModel, name: Seq<char>) -> ArgModel {
    ArgModel { name: name, kind: ArgKind::Input, expecting: true, short: a.short }
}

/// What `Arg::flag` does: flag taking no trailing value; the short alias
/// is kept.
pub open spec fn with_flag(a: ArgModel, name: Seq<char>) -> ArgModel {
    ArgModel { name: name, kind: ArgKind::Flag, expecting: false, short: a.short }
}

/// What `Arg::short` does: attaches or overwrites the alias and touches
/// nothing else.
pub open spec fn with_short(a: ArgModel, c: char) -> ArgModel {
    ArgModel { short: Some(c), ..a }
}

/// What `Arg::set_used` does: marks the definition as a positional
/// parameter whose slot is consumed exactly when `used` holds.
pub open spec fn with_used(a: ArgModel, used: bool) -> ArgModel {
    ArgModel { kind: ArgKind::Param(used), ..a }
}

impl Arg {
    /// Creates a blank definition; chain further methods to give it a role.
    pub fn new() -> (r: Arg)
        ensures
            r@ == blank_arg(),
    {
        Arg { name: String::new(), kind: ArgKind::Unset, expecting: false, short: None }
    }

    /// Turns the definition into a required positional parameter named
    /// `name`. The order in which parameters are registered decides which
    /// bare token fills which slot.
    pub fn param(self, name: &str) -> (r: Arg)
        ensures
            r@ == with_param(self@, name@),
    {
        Arg { name: name.to_owned(), kind: ArgKind::Param(false), expecting: false, short: self.short }
    }

    /// Turns the definition into an option named `name` that must be
    /// followed directly by one value token.
    pub fn input(self, name: &str) -> (r: Arg)
        ensures
            r@ == with_input(self@, name@),
    {
        Arg { name: name.to_owned(), kind: ArgKind::Input, expecting: true, short: self.short }
    }

    /// Turns the definition into a flag named `name`: its presence alone
    /// is the signal, no value token follows.
    pub fn flag(self, name: &str) -> (r: Arg)
        ensures
            r@ == with_flag(self@, name@),
    {
        Arg { name: name.to_owned(), kind: ArgKind::Flag, expecting: false, short: self.short }
    }

    /// Attaches a single-character alias, so the definition can also be
    /// invoked as `-<c>`. Orthogonal to the role: name, role and the
    /// expects-a-value property stay as they are.
    pub fn short(self, c: char) -> (r: Arg)
        ensures
            r@ == with_short(self@, c),
    {
        Arg { name: self.name, kind: self.kind, expecting: self.expecting, short: Some(c) }
    }

    /// Marks the definition's positional slot as consumed (or open again).
    pub fn set_used(&mut self, used: bool)
        ensures
            final(self)@ == with_used(old(self)@, used),
    {
        self.kind = ArgKind::Param(used);
    }
}

impl Clone for Arg {
    /// A clone is indistinguishable from the original.
    fn clone(&self) -> (r: Self)
        ensures
            r == *self,
    {
        Arg { name: self.name.clone(), kind: self.kind, expecting: self.expecting, short: self.short }
    }
}

} // verus!
