//! The parser engine: registration of definitions and the single-pass
//! parse algorithm, together with its mathematical model.

use vstd::prelude::*;
use vstd::string::StrSliceExecFns;

use crate::arg::Arg;
use crate::arg::ArgKind;
use crate::arg::ArgModel;
use crate::error::InvalidCommandError;
use crate::error::InvalidCommandReasons;
use crate::error::ReasonModel;
use crate::output::ParseOutput;

verus! {

/// The token invokes some definition: it begins with a dash.
pub open spec fn starts_dash(t: Seq<char>) -> bool {
    t.len() >= 1 && t[0] == '-'
}

/// The token is a long-form invocation: it begins with two dashes.
pub open spec fn is_long(t: Seq<char>) -> bool {
    t.len() >= 2 && t[0] == '-' && t[1] == '-'
}

/// The name a long-form token invokes: everything after the two dashes.
pub open spec fn long_name(t: Seq<char>) -> Seq<char> {
    t.subrange(2, t.len() as int)
}

/// Index of the first definition at or after `i` whose name is `name`.
pub open spec fn find_long_from(defs: Seq<ArgModel>, name: Seq<char>, i: int) -> Option<int>
    decreases defs.len() - i,
{
    if i < 0 || i >= defs.len() {
        None
    } else if defs[i].name == name {
        Some(i)
    } else {
        find_long_from(defs, name, i + 1)
    }
}

/// Index of the first definition at or after `i` whose short alias is `c`.
pub open spec fn find_short_from(defs: Seq<ArgModel>, c: char, i: int) -> Option<int>
    decreases defs.len() - i,
{
    if i < 0 || i >= defs.len() {
        None
    } else if defs[i].short == Some(c) {
        Some(i)
    } else {
        find_short_from(defs, c, i + 1)
    }
}

/// The definition at `i` is a positional parameter whose slot is open.
pub open spec fn open_param(defs: Seq<ArgModel>, used: Seq<bool>, i: int) -> bool {
    defs[i].kind matches ArgKind::Param(_) && !used[i]
}

/// Index of the first open positional parameter at or after `i`.
pub open spec fn find_param_from(defs: Seq<ArgModel>, used: Seq<bool>, i: int) -> Option<int>
    decreases defs.len() - i,
{
    if i < 0 || i >= defs.len() {
        None
    } else if open_param(defs, used, i) {
        Some(i)
    } else {
        find_param_from(defs, used, i + 1)
    }
}

/// The definition a dash-prefixed token resolves to. A long form names a
/// definition outright; a short form is exactly a dash and one further
/// character and goes by the alias. The first match in registration order
/// wins. Any other token resolves to nothing.
pub open spec fn resolve(defs: Seq<ArgModel>, t: Seq<char>) -> Option<int> {
    if is_long(t) {
        find_long_from(defs, long_name(t), 0)
    } else if starts_dash(t) && t.len() == 2 {
        find_short_from(defs, t[1], 0)
    } else {
        None
    }
}

/// Positional slots consumed before any token is read: exactly those of
/// parameters registered with an already-consumed slot.
pub open spec fn init_used(defs: Seq<ArgModel>) -> Seq<bool> {
    Seq::new(defs.len(), |i: int| defs[i].kind == ArgKind::Param(true))
}

/// The ghost image of the parser's transient pending state: the index of
/// the value-expecting definition still awaiting its value, if any.
pub open spec fn pending_model(p: Option<usize>) -> Option<int> {
    match p {
        Some(j) => Some(j as int),
        None => None,
    }
}

/// The outcome of a parse over the remaining tokens, from a mid-parse
/// state: `used` records which positional slots are consumed, `out` the
/// mapping built so far, `pending` the index of a value-expecting option
/// whose value has not yet arrived. The definitions themselves never
/// change during a parse.
pub open spec fn parse_from(
    defs: Seq<ArgModel>,
    used: Seq<bool>,
    toks: Seq<Seq<char>>,
    out: Map<Seq<char>, Option<Seq<char>>>,
    pending: Option<int>,
) -> Result<Map<Seq<char>, Option<Seq<char>>>, ReasonModel>
    decreases toks.len(),
{
    if toks.len() == 0 {
        if pending is Some {
            Err(ReasonModel::Missing)
        } else if find_param_from(defs, used, 0) is Some {
            Err(ReasonModel::Missing)
        } else {
            Ok(out)
        }
    } else {
        let t = toks[0];
        let rest = toks.drop_first();
        if starts_dash(t) {
            if pending is Some {
                Err(ReasonModel::Unexpected(t))
            } else {
                match resolve(defs, t) {
                    None => Err(ReasonModel::Unexpected(t)),
                    Some(i) => if defs[i].expecting {
                        parse_from(defs, used, rest, out, Some(i))
                    } else if out.contains_key(defs[i].name) {
                        Err(ReasonModel::Duplicate(t))
                    } else {
                        parse_from(defs, used, rest, out.insert(defs[i].name, None), None)
                    },
                }
            }
        } else {
            match pending {
                Some(p) => if out.contains_key(defs[p].name) {
                    Err(ReasonModel::Duplicate(t))
                } else {
                    parse_from(defs, used, rest, out.insert(defs[p].name, Some(t)), None)
                },
                None => match find_param_from(defs, used, 0) {
                    None => Err(ReasonModel::Unexpected(t)),
                    Some(j) => if out.contains_key(defs[j].name) {
                        Err(ReasonModel::Duplicate(t))
                    } else {
                        parse_from(
                            defs,
                            used.update(j, true),
                            rest,
                            out.insert(defs[j].name, Some(t)),
                            None,
                        )
                    },
                },
            }
        }
    }
}

/// What a parse call returns on a definition list and a token sequence.
pub open spec fn spec_parse(defs: Seq<ArgModel>, toks: Seq<Seq<char>>) -> Result<
    Map<Seq<char>, Option<Seq<char>>>,
    ReasonModel,
> {
    parse_from(defs, init_used(defs), toks, Map::empty(), None)
}

/// The parser engine: an ordered collection of argument definitions and a
/// single entry point that matches a token sequence against them. The
/// registration order decides which positional slot a bare token fills.
pub struct Parser {
    args: Vec<Arg>,
}

impl View for Parser {
    type V = Seq<ArgModel>;

    closed spec fn view(&self) -> Seq<ArgModel> {
        self.args.deep_view()
    }
}

/// Index of the first registered definition whose name equals `name`.
#[verifier::loop_isolation(false)]
fn find_long_index(args: &Vec<Arg>, name: &String) -> (r: Option<usize>)
    ensures
        match r {
            Some(j) => j < args.len() && find_long_from(args.deep_view(), name@, 0) == Some(
                j as int,
            ),
            None => find_long_from(args.deep_view(), name@, 0) is None,
        },
{
    let n = args.len();
    let mut k: usize = 0;
    while k < n
        invariant
            k <= n,
            find_long_from(args.deep_view(), name@, 0) == find_long_from(
                args.deep_view(),
                name@,
                k as int,
            ),
        decreases n - k,
    {
        if args[k].name == *name {
            proof {
                assert(args.deep_view()[k as int].name == name@);
            }
            return Some(k);
        }
        proof {
            assert(args.deep_view()[k as int].name != name@);
        }
        k += 1;
    }
    None
}

/// Index of the first registered definition whose short alias is `c`.
#[verifier::loop_isolation(false)]
fn find_short_index(args: &Vec<Arg>, c: char) -> (r: Option<usize>)
    ensures
        match r {
            Some(j) => j < args.len() && find_short_from(args.deep_view(), c, 0) == Some(j as int),
            None => find_short_from(args.deep_view(), c, 0) is None,
        },
{
    let n = args.len();
    let mut k: usize = 0;
    while k < n
        invariant
            k <= n,
            find_short_from(args.deep_view(), c, 0) == find_short_from(
                args.deep_view(),
                c,
                k as int,
            ),
        decreases n - k,
    {
        let hit = match args[k].short {
            Some(c2) => c2 == c,
            None => false,
        };
        if hit {
            proof {
                assert(args.deep_view()[k as int].short == Some(c));
            }
            return Some(k);
        }
        proof {
            assert(args.deep_view()[k as int].short != Some(c));
        }
        k += 1;
    }
    None
}

/// Index of the first positional parameter whose slot is still open.
#[verifier::loop_isolation(false)]
fn find_param_index(args: &Vec<Arg>, used: &Vec<bool>) -> (r: Option<usize>)
    requires
        used@.len() == args@.len(),
    ensures
        match r {
            Some(j) => j < args.len() && find_param_from(args.deep_view(), used@, 0) == Some(
                j as int,
            ),
            None => find_param_from(args.deep_view(), used@, 0) is None,
        },
{
    let n = args.len();
    let mut k: usize = 0;
    while k < n
        invariant
            k <= n,
            find_param_from(args.deep_view(), used@, 0) == find_param_from(
                args.deep_view(),
                used@,
                k as int,
            ),
        decreases n - k,
    {
        let is_param = match args[k].kind {
            ArgKind::Param(_) => true,
            _ => false,
        };
        if is_param && !used[k] {
            proof {
                assert(open_param(args.deep_view(), used@, k as int));
            }
            return Some(k);
        }
        proof {
            assert(!open_param(args.deep_view(), used@, k as int));
        }
        k += 1;
    }
    None
}

impl Parser {
    /// An engine with no definitions registered.
    pub fn new() -> (r: Parser)
        ensures
            r@ == Seq::<ArgModel>::empty(),
    {
        let r = Parser { args: Vec::new() };
        proof {
            assert(r.args.deep_view() =~= Seq::<ArgModel>::empty());
        }
        r
    }

    /// Appends one definition to the engine's ordered list.
    pub fn add_arg(&mut self, arg: Arg)
        ensures
            final(self)@ == old(self)@.push(arg@),
    {
        let ghost before = self.args.deep_view();
        let ghost am = arg@;
        self.args.push(arg);
        proof {
            assert(self.args.deep_view() =~= before.push(am));
        }
    }

    /// Appends many definitions, preserving their relative order.
    pub fn add_args(&mut self, args: Vec<Arg>)
        ensures
            final(self)@ == old(self)@ + args.deep_view(),
    {
        let ghost before = self.args.deep_view();
        let ghost given = args.deep_view();
        let mut rest = args;
        self.args.append(&mut rest);
        proof {
            assert(self.args.deep_view() =~= before + given);
        }
    }

    /// The registered definitions, as an independently owned vector.
    pub fn args(&self) -> (r: Vec<Arg>)
        ensures
            r.deep_view() == self@,
    {
        let r = self.args.clone();
        proof {
            assert(forall|i: int|
                0 <= i < self.args.len() ==> #[trigger] r@[i] == self.args@[i]);
            assert(r.deep_view() =~= self.args.deep_view());
        }
        r
    }

    /// The number of registered definitions.
    pub fn len(&self) -> (r: usize)
        ensures
            r == self@.len(),
    {
        self.args.len()
    }

    /// Wraps a failure reason as the parse result.
    fn get_err(&self, reason: InvalidCommandReasons) -> (r: Result<ParseOutput, InvalidCommandError>)
        ensures
            r matches Err(e) && e@ == reason@,
    {
        Err(InvalidCommandError::new(reason))
    }

    /// Parses the token sequence against the registered definitions and
    /// returns the mapping from argument name to optional value, or the
    /// first violation met, exactly as [`spec_parse`] lays the algorithm
    /// out: one pass, left to right; a value-expecting option must be
    /// followed directly by its value; bare tokens fill open positional
    /// slots in registration order; every positional slot must be filled
    /// by the end.
    #[verifier::loop_isolation(false)]
    pub fn parse(&self, tokens: &Vec<String>) -> (r: Result<ParseOutput, InvalidCommandError>)
        ensures
            match r {
                Ok(out) => spec_parse(self@, tokens.deep_view()) == Ok::<
                    Map<Seq<char>, Option<Seq<char>>>,
                    ReasonModel,
                >(out@),
                Err(e) => spec_parse(self@, tokens.deep_view()) == Err::<
                    Map<Seq<char>, Option<Seq<char>>>,
                    ReasonModel,
                >(e@),
            },
    {
        let ghost dm = self@;
        let ghost tm = tokens.deep_view();
        let ghost target = spec_parse(dm, tm);
        let n = self.args.len();
        let mut used: Vec<bool> = Vec::new();
        let mut j: usize = 0;
        while j < n
            invariant
                j <= n,
                used@.len() == j,
                forall|x: int| 0 <= x < j ==> used@[x] == (dm[x].kind == ArgKind::Param(true)),
            decreases n - j,
        {
            let pre_used = match self.args[j].kind {
                ArgKind::Param(u) => u,
                _ => false,
            };
            proof {
                assert(dm[j as int].kind == self.args@[j as int].kind);
            }
            used.push(pre_used);
            j += 1;
        }
        proof {
            assert(used@ =~= init_used(dm));
            assert(tm.skip(0) =~= tm);
        }
        let mut out = ParseOutput::new();
        let mut pending: Option<usize> = None;
        let mut i: usize = 0;
        while i < tokens.len()
            invariant
                i <= tokens.len(),
                used@.len() == n,
                pending matches Some(p) ==> p < n,
                parse_from(dm, used@, tm.skip(i as int), out@, pending_model(pending)) == target,
            decreases tokens.len() - i,
        {
            let t = &tokens[i];
            let ghost ts = tm.skip(i as int);
            proof {
                assert(ts[0] == tm[i as int]);
                assert(tm[i as int] == t@);
                assert(ts.drop_first() =~= tm.skip(i as int + 1));
            }
            let tlen = t.as_str().unicode_len();
            if tlen >= 1 && t.as_str().get_char(0) == '-' {
                // An option token. A pending option means its value never came.
                if pending.is_some() {
                    return self.get_err(InvalidCommandReasons::Unexpected(t.clone()));
                }
                if tlen >= 2 && t.as_str().get_char(1) == '-' {
                    // Long form: the name is everything after the two dashes.
                    let sub = t.as_str().substring_char(2, tlen);
                    let token_name = sub.to_owned();
                    proof {
                        assert(token_name@ == long_name(t@));
                    }
                    match find_long_index(&self.args, &token_name) {
                        None => {
                            return self.get_err(InvalidCommandReasons::Unexpected(t.clone()));
                        },
                        Some(idx) => {
                            if self.args[idx].expecting {
                                pending = Some(idx);
                            } else {
                                if out.contains_key(self.args[idx].name.as_str()) {
                                    return self.get_err(
                                        InvalidCommandReasons::Duplicate(t.clone()),
                                    );
                                }
                                out.insert(self.args[idx].name.clone(), None);
                            }
                        },
                    }
                } else {
                    // Short form: exactly a dash and one further character.
                    if tlen == 2 {
                        let c = t.as_str().get_char(1);
                        match find_short_index(&self.args, c) {
                            None => {
                                return self.get_err(InvalidCommandReasons::Unexpected(t.clone()));
                            },
                            Some(idx) => {
                                if self.args[idx].expecting {
                                    pending = Some(idx);
                                } else {
                                    if out.contains_key(self.args[idx].name.as_str()) {
                                        return self.get_err(
                                            InvalidCommandReasons::Duplicate(t.clone()),
                                        );
                                    }
                                    out.insert(self.args[idx].name.clone(), None);
                                }
                            },
                        }
                    } else {
                        return self.get_err(InvalidCommandReasons::Unexpected(t.clone()));
                    }
                }
            } else {
                // An ordinary token: a pending option's value, or else the
                // filling of the first open positional slot.
                match pending {
                    Some(p) => {
                        if out.contains_key(self.args[p].name.as_str()) {
                            return self.get_err(InvalidCommandReasons::Duplicate(t.clone()));
                        }
                        out.insert(self.args[p].name.clone(), Some(t.clone()));
                        pending = None;
                    },
                    None => {
                        match find_param_index(&self.args, &used) {
                            None => {
                                return self.get_err(InvalidCommandReasons::Unexpected(t.clone()));
                            },
                            Some(idx) => {
                                if out.contains_key(self.args[idx].name.as_str()) {
                                    return self.get_err(
                                        InvalidCommandReasons::Duplicate(t.clone()),
                                    );
                                }
                                out.insert(self.args[idx].name.clone(), Some(t.clone()));
                                used[idx] = true;
                            },
                        }
                    },
                }
            }
            i += 1;
        }
        proof {
            assert(tm.skip(tokens.len() as int) =~= Seq::<Seq<char>>::empty());
        }
        // The sequence is exhausted: a still-pending option never got its
        // value, and every positional slot must have been filled.
        if pending.is_some() {
            return self.get_err(InvalidCommandReasons::Missing);
        }
        match find_param_index(&self.args, &used) {
            Some(_) => self.get_err(InvalidCommandReasons::Missing),
            None => Ok(out),
        }
    }
}

} // verus!
