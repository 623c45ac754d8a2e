//! General properties of the parse algorithm and of the builder, proved
//! once and for all over the mathematical model.

use vstd::prelude::*;

use crate::arg::ArgKind;
use crate::arg::ArgModel;
use crate::arg::with_flag;
use crate::arg::with_input;
use crate::arg::with_param;
use crate::arg::with_short;
use crate::error::ReasonModel;
use crate::parser::find_long_from;
use crate::parser::find_param_from;
use crate::parser::find_short_from;
use crate::parser::init_used;
use crate::parser::open_param;
use crate::parser::parse_from;
use crate::parser::resolve;
use crate::parser::spec_parse;
use crate::parser::starts_dash;

verus! {

/// The mapping a successful outcome carries; immaterial on failure.
pub open spec fn ok_map(r: Result<Map<Seq<char>, Option<Seq<char>>>, ReasonModel>) -> Map<
    Seq<char>,
    Option<Seq<char>>,
> {
    match r {
        Ok(m) => m,
        Err(_) => Map::empty(),
    }
}

/// What the scan for a long name finds: the first match at or after `i`.
/// On ambiguous configurations — several definitions sharing a name —
/// the earliest registered definition wins.
pub proof fn lemma_find_long_char(defs: Seq<ArgModel>, name: Seq<char>, i: int)
    requires
        0 <= i,
    ensures
        match find_long_from(defs, name, i) {
            Some(j) => i <= j < defs.len() && defs[j].name == name && forall|k: int|
                i <= k < j ==> defs[k].name != name,
            None => forall|k: int| i <= k < defs.len() ==> defs[k].name != name,
        },
    decreases defs.len() - i,
{
    if i < defs.len() && defs[i].name != name {
        lemma_find_long_char(defs, name, i + 1);
    }
}

/// What the scan for a short alias finds: the first match at or after
/// `i`. On ambiguous configurations — several definitions sharing an
/// alias — the earliest registered definition wins.
pub proof fn lemma_find_short_char(defs: Seq<ArgModel>, c: char, i: int)
    requires
        0 <= i,
    ensures
        match find_short_from(defs, c, i) {
            Some(j) => i <= j < defs.len() && defs[j].short == Some(c) && forall|k: int|
                i <= k < j ==> defs[k].short != Some(c),
            None => forall|k: int| i <= k < defs.len() ==> defs[k].short != Some(c),
        },
    decreases defs.len() - i,
{
    if i < defs.len() && defs[i].short != Some(c) {
        lemma_find_short_char(defs, c, i + 1);
    }
}

/// What the scan for an open positional slot finds.
proof fn lemma_find_param_char(defs: Seq<ArgModel>, used: Seq<bool>, i: int)
    requires
        0 <= i,
    ensures
        match find_param_from(defs, used, i) {
            Some(j) => i <= j < defs.len() && open_param(defs, used, j) && forall|k: int|
                i <= k < j ==> !open_param(defs, used, k),
            None => forall|k: int| i <= k < defs.len() ==> !open_param(defs, used, k),
        },
    decreases defs.len() - i,
{
    if i < defs.len() && !open_param(defs, used, i) {
        lemma_find_param_char(defs, used, i + 1);
    }
}

/// Once a binding is in the mapping under construction, it is in the final
/// mapping of every successful outcome, unchanged: the algorithm only ever
/// adds bindings for absent keys.
proof fn lemma_bindings_persist(
    defs: Seq<ArgModel>,
    used: Seq<bool>,
    toks: Seq<Seq<char>>,
    out: Map<Seq<char>, Option<Seq<char>>>,
    pending: Option<int>,
    k: Seq<char>,
)
    requires
        parse_from(defs, used, toks, out, pending) is Ok,
        out.contains_key(k),
    ensures
        ok_map(parse_from(defs, used, toks, out, pending)).contains_key(k),
        ok_map(parse_from(defs, used, toks, out, pending))[k] == out[k],
    decreases toks.len(),
{
    if toks.len() > 0 {
        let t = toks[0];
        let rest = toks.drop_first();
        if starts_dash(t) {
            match resolve(defs, t) {
                Some(i) => {
                    if defs[i].expecting {
                        lemma_bindings_persist(defs, used, rest, out, Some(i), k);
                    } else {
                        lemma_bindings_persist(
                            defs,
                            used,
                            rest,
                            out.insert(defs[i].name, None),
                            None,
                            k,
                        );
                    }
                },
                None => {},
            }
        } else {
            match pending {
                Some(p) => {
                    lemma_bindings_persist(
                        defs,
                        used,
                        rest,
                        out.insert(defs[p].name, Some(t)),
                        None,
                        k,
                    );
                },
                None => {
                    match find_param_from(defs, used, 0) {
                        Some(jj) => {
                            lemma_bindings_persist(
                                defs,
                                used.update(jj, true),
                                rest,
                                out.insert(defs[jj].name, Some(t)),
                                None,
                                k,
                            );
                        },
                        None => {},
                    }
                },
            }
        }
    }
}

/// A success with a value-expecting option still pending can only continue
/// with that option's bare value as the very next token; the final mapping
/// records it under the option's name.
proof fn lemma_pending_filled(
    defs: Seq<ArgModel>,
    used: Seq<bool>,
    toks: Seq<Seq<char>>,
    out: Map<Seq<char>, Option<Seq<char>>>,
    p: int,
)
    requires
        parse_from(defs, used, toks, out, Some(p)) is Ok,
    ensures
        toks.len() > 0 && !starts_dash(toks[0]),
        ok_map(parse_from(defs, used, toks, out, Some(p))).contains_key(defs[p].name),
        ok_map(parse_from(defs, used, toks, out, Some(p)))[defs[p].name] == Some(toks[0]),
{
    let t = toks[0];
    let rest = toks.drop_first();
    lemma_bindings_persist(
        defs,
        used,
        rest,
        out.insert(defs[p].name, Some(t)),
        None,
        defs[p].name,
    );
}

/// On a successful parse, every token that resolves to a definition leaves
/// that definition's name in the mapping: with no value for one that
/// expects none, and with the directly following bare token for one that
/// does.
proof fn lemma_resolved_recorded(
    defs: Seq<ArgModel>,
    used: Seq<bool>,
    toks: Seq<Seq<char>>,
    out: Map<Seq<char>, Option<Seq<char>>>,
    pending: Option<int>,
    j: int,
    i: int,
)
    requires
        parse_from(defs, used, toks, out, pending) is Ok,
        0 <= j < toks.len(),
        resolve(defs, toks[j]) == Some(i),
    ensures
        ok_map(parse_from(defs, used, toks, out, pending)).contains_key(defs[i].name),
        !defs[i].expecting ==> ok_map(parse_from(defs, used, toks, out, pending))[defs[i].name]
            is None,
        defs[i].expecting ==> j + 1 < toks.len() && !starts_dash(toks[j + 1]) && ok_map(
            parse_from(defs, used, toks, out, pending),
        )[defs[i].name] == Some(toks[j + 1]),
    decreases toks.len(),
{
    let t = toks[0];
    let rest = toks.drop_first();
    if j == 0 {
        if defs[i].expecting {
            lemma_pending_filled(defs, used, rest, out, i);
        } else {
            lemma_bindings_persist(
                defs,
                used,
                rest,
                out.insert(defs[i].name, None),
                None,
                defs[i].name,
            );
        }
    } else {
        assert(rest[j - 1] == toks[j]);
        if starts_dash(t) {
            match resolve(defs, t) {
                Some(i0) => {
                    if defs[i0].expecting {
                        lemma_resolved_recorded(defs, used, rest, out, Some(i0), j - 1, i);
                    } else {
                        lemma_resolved_recorded(
                            defs,
                            used,
                            rest,
                            out.insert(defs[i0].name, None),
                            None,
                            j - 1,
                            i,
                        );
                    }
                },
                None => {},
            }
        } else {
            match pending {
                Some(p) => {
                    lemma_resolved_recorded(
                        defs,
                        used,
                        rest,
                        out.insert(defs[p].name, Some(t)),
                        None,
                        j - 1,
                        i,
                    );
                },
                None => {
                    match find_param_from(defs, used, 0) {
                        Some(jj) => {
                            lemma_resolved_recorded(
                                defs,
                                used.update(jj, true),
                                rest,
                                out.insert(defs[jj].name, Some(t)),
                                None,
                                j - 1,
                                i,
                            );
                        },
                        None => {},
                    }
                },
            }
        }
    }
}

/// Whenever some token invokes a definition that takes no trailing value —
/// a flag, by its long name or its alias — and the parse as a whole
/// succeeds, the result maps that definition's name to no value.
pub proof fn lemma_flag_invocation(defs: Seq<ArgModel>, toks: Seq<Seq<char>>, j: int, i: int)
    requires
        0 <= j < toks.len(),
        resolve(defs, toks[j]) == Some(i),
        !defs[i].expecting,
    ensures
        spec_parse(defs, toks) matches Ok(m) ==> m.contains_key(defs[i].name) && m[defs[i].name]
            is None,
{
    if spec_parse(defs, toks) is Ok {
        lemma_resolved_recorded(defs, init_used(defs), toks, Map::empty(), None, j, i);
    }
}

/// Whenever some token invokes a value-expecting definition and the parse
/// as a whole succeeds, a bare value token follows it directly and the
/// result maps the definition's name to exactly that value.
pub proof fn lemma_value_option_invocation(
    defs: Seq<ArgModel>,
    toks: Seq<Seq<char>>,
    j: int,
    i: int,
)
    requires
        0 <= j < toks.len(),
        resolve(defs, toks[j]) == Some(i),
        defs[i].expecting,
    ensures
        spec_parse(defs, toks) matches Ok(m) ==> j + 1 < toks.len() && !starts_dash(toks[j + 1])
            && m.contains_key(defs[i].name) && m[defs[i].name] == Some(toks[j + 1]),
{
    if spec_parse(defs, toks) is Ok {
        lemma_resolved_recorded(defs, init_used(defs), toks, Map::empty(), None, j, i);
    }
}

/// With a value-expecting option pending whose name is already bound, no
/// continuation succeeds: the sequence may end (its value is missing), a
/// dash token may follow (unexpected), or its value arrives and collides.
proof fn lemma_pending_collision_fails(
    defs: Seq<ArgModel>,
    used: Seq<bool>,
    toks: Seq<Seq<char>>,
    out: Map<Seq<char>, Option<Seq<char>>>,
    p: int,
)
    requires
        out.contains_key(defs[p].name),
    ensures
        parse_from(defs, used, toks, out, Some(p)) is Err,
{
}

/// Re-invoking a name that is already bound cannot succeed, wherever in
/// the remaining tokens the re-invocation stands.
proof fn lemma_rebound_name_fails(
    defs: Seq<ArgModel>,
    used: Seq<bool>,
    toks: Seq<Seq<char>>,
    out: Map<Seq<char>, Option<Seq<char>>>,
    pending: Option<int>,
    kk: int,
    i2: int,
)
    requires
        0 <= kk < toks.len(),
        resolve(defs, toks[kk]) == Some(i2),
        out.contains_key(defs[i2].name),
    ensures
        parse_from(defs, used, toks, out, pending) is Err,
    decreases toks.len(),
{
    let t = toks[0];
    let rest = toks.drop_first();
    if kk == 0 {
        match pending {
            Some(_) => {},
            None => {
                if defs[i2].expecting {
                    lemma_pending_collision_fails(defs, used, rest, out, i2);
                }
            },
        }
    } else {
        assert(rest[kk - 1] == toks[kk]);
        if starts_dash(t) {
            match pending {
                Some(_) => {},
                None => {
                    match resolve(defs, t) {
                        Some(i0) => {
                            if defs[i0].expecting {
                                lemma_rebound_name_fails(defs, used, rest, out, Some(i0), kk - 1, i2);
                            } else if !out.contains_key(defs[i0].name) {
                                lemma_rebound_name_fails(
                                    defs,
                                    used,
                                    rest,
                                    out.insert(defs[i0].name, None),
                                    None,
                                    kk - 1,
                                    i2,
                                );
                            }
                        },
                        None => {},
                    }
                },
            }
        } else {
            match pending {
                Some(p) => {
                    if !out.contains_key(defs[p].name) {
                        lemma_rebound_name_fails(
                            defs,
                            used,
                            rest,
                            out.insert(defs[p].name, Some(t)),
                            None,
                            kk - 1,
                            i2,
                        );
                    }
                },
                None => {
                    match find_param_from(defs, used, 0) {
                        Some(jj) => {
                            if !out.contains_key(defs[jj].name) {
                                lemma_rebound_name_fails(
                                    defs,
                                    used.update(jj, true),
                                    rest,
                                    out.insert(defs[jj].name, Some(t)),
                                    None,
                                    kk - 1,
                                    i2,
                                );
                            }
                        },
                        None => {},
                    }
                },
            }
        }
    }
}

/// As [`lemma_rebound_name_fails`], from the state where the first of the
/// two colliding invocations has just set its option pending.
proof fn lemma_pending_then_rebound_fails(
    defs: Seq<ArgModel>,
    used: Seq<bool>,
    toks: Seq<Seq<char>>,
    out: Map<Seq<char>, Option<Seq<char>>>,
    p: int,
    kk: int,
    i2: int,
)
    requires
        0 <= kk < toks.len(),
        resolve(defs, toks[kk]) == Some(i2),
        defs[i2].name == defs[p].name,
    ensures
        parse_from(defs, used, toks, out, Some(p)) is Err,
{
    let t = toks[0];
    let rest = toks.drop_first();
    if !starts_dash(t) {
        assert(kk >= 1) by {
            if kk == 0 {
                assert(starts_dash(toks[0]));
            }
        }
        assert(rest[kk - 1] == toks[kk]);
        if !out.contains_key(defs[p].name) {
            lemma_rebound_name_fails(
                defs,
                used,
                rest,
                out.insert(defs[p].name, Some(t)),
                None,
                kk - 1,
                i2,
            );
        }
    }
}

/// Two tokens invoking the same argument name never both pass, whatever
/// mid-parse state the first is met in.
proof fn lemma_duplicate_general(
    defs: Seq<ArgModel>,
    used: Seq<bool>,
    toks: Seq<Seq<char>>,
    out: Map<Seq<char>, Option<Seq<char>>>,
    pending: Option<int>,
    j: int,
    k: int,
    i1: int,
    i2: int,
)
    requires
        0 <= j < k < toks.len(),
        resolve(defs, toks[j]) == Some(i1),
        resolve(defs, toks[k]) == Some(i2),
        defs[i1].name == defs[i2].name,
    ensures
        parse_from(defs, used, toks, out, pending) is Err,
    decreases toks.len(),
{
    let t = toks[0];
    let rest = toks.drop_first();
    if j == 0 {
        assert(rest[k - 1] == toks[k]);
        match pending {
            Some(_) => {},
            None => {
                match resolve(defs, t) {
                    Some(i0) => {
                        if defs[i0].expecting {
                            lemma_pending_then_rebound_fails(defs, used, rest, out, i0, k - 1, i2);
                        } else if !out.contains_key(defs[i0].name) {
                            lemma_rebound_name_fails(
                                defs,
                                used,
                                rest,
                                out.insert(defs[i0].name, None),
                                None,
                                k - 1,
                                i2,
                            );
                        }
                    },
                    None => {},
                }
            },
        }
    } else {
        assert(rest[j - 1] == toks[j]);
        assert(rest[k - 1] == toks[k]);
        if starts_dash(t) {
            match pending {
                Some(_) => {},
                None => {
                    match resolve(defs, t) {
                        Some(i0) => {
                            if defs[i0].expecting {
                                lemma_duplicate_general(
                                    defs,
                                    used,
                                    rest,
                                    out,
                                    Some(i0),
                                    j - 1,
                                    k - 1,
                                    i1,
                                    i2,
                                );
                            } else if !out.contains_key(defs[i0].name) {
                                lemma_duplicate_general(
                                    defs,
                                    used,
                                    rest,
                                    out.insert(defs[i0].name, None),
                                    None,
                                    j - 1,
                                    k - 1,
                                    i1,
                                    i2,
                                );
                            }
                        },
                        None => {},
                    }
                },
            }
        } else {
            match pending {
                Some(p) => {
                    if !out.contains_key(defs[p].name) {
                        lemma_duplicate_general(
                            defs,
                            used,
                            rest,
                            out.insert(defs[p].name, Some(t)),
                            None,
                            j - 1,
                            k - 1,
                            i1,
                            i2,
                        );
                    }
                },
                None => {
                    match find_param_from(defs, used, 0) {
                        Some(jj) => {
                            if !out.contains_key(defs[jj].name) {
                                lemma_duplicate_general(
                                    defs,
                                    used.update(jj, true),
                                    rest,
                                    out.insert(defs[jj].name, Some(t)),
                                    None,
                                    j - 1,
                                    k - 1,
                                    i1,
                                    i2,
                                );
                            }
                        },
                        None => {},
                    }
                },
            }
        }
    }
}

/// Invoking the same argument name twice in one sequence — by long form
/// or by alias, as a flag or as a value-expecting option — always fails.
pub proof fn lemma_duplicate_invocation(
    defs: Seq<ArgModel>,
    toks: Seq<Seq<char>>,
    j: int,
    k: int,
    i1: int,
    i2: int,
)
    requires
        0 <= j < k < toks.len(),
        resolve(defs, toks[j]) == Some(i1),
        resolve(defs, toks[k]) == Some(i2),
        defs[i1].name == defs[i2].name,
    ensures
        spec_parse(defs, toks) is Err,
{
    lemma_duplicate_general(
        defs,
        init_used(defs),
        toks,
        Map::empty(),
        None,
        j,
        k,
        i1,
        i2,
    );
}

/// A token sequence ending in a value-expecting invocation never
/// succeeds, whatever mid-parse state it is met in.
proof fn lemma_trailing_general(
    defs: Seq<ArgModel>,
    used: Seq<bool>,
    toks: Seq<Seq<char>>,
    out: Map<Seq<char>, Option<Seq<char>>>,
    pending: Option<int>,
    i: int,
)
    requires
        toks.len() > 0,
        resolve(defs, toks[toks.len() - 1]) == Some(i),
        defs[i].expecting,
    ensures
        parse_from(defs, used, toks, out, pending) is Err,
    decreases toks.len(),
{
    let t = toks[0];
    let rest = toks.drop_first();
    if toks.len() == 1 {
        assert(starts_dash(t));
        assert(rest.len() == 0);
        match pending {
            Some(_) => {},
            None => {
                assert(parse_from(defs, used, rest, out, Some(i)) is Err);
            },
        }
    } else {
        assert(rest[rest.len() - 1] == toks[toks.len() - 1]);
        if starts_dash(t) {
            match pending {
                Some(_) => {},
                None => {
                    match resolve(defs, t) {
                        Some(i0) => {
                            if defs[i0].expecting {
                                lemma_trailing_general(defs, used, rest, out, Some(i0), i);
                            } else if !out.contains_key(defs[i0].name) {
                                lemma_trailing_general(
                                    defs,
                                    used,
                                    rest,
                                    out.insert(defs[i0].name, None),
                                    None,
                                    i,
                                );
                            }
                        },
                        None => {},
                    }
                },
            }
        } else {
            match pending {
                Some(p) => {
                    if !out.contains_key(defs[p].name) {
                        lemma_trailing_general(
                            defs,
                            used,
                            rest,
                            out.insert(defs[p].name, Some(t)),
                            None,
                            i,
                        );
                    }
                },
                None => {
                    match find_param_from(defs, used, 0) {
                        Some(jj) => {
                            if !out.contains_key(defs[jj].name) {
                                lemma_trailing_general(
                                    defs,
                                    used.update(jj, true),
                                    rest,
                                    out.insert(defs[jj].name, Some(t)),
                                    None,
                                    i,
                                );
                            }
                        },
                        None => {},
                    }
                },
            }
        }
    }
}

/// A value-expecting option as the last token, with no value after it,
/// always fails: the value is missing.
pub proof fn lemma_missing_value(defs: Seq<ArgModel>, toks: Seq<Seq<char>>, i: int)
    requires
        toks.len() > 0,
        resolve(defs, toks[toks.len() - 1]) == Some(i),
        defs[i].expecting,
    ensures
        spec_parse(defs, toks) is Err,
{
    lemma_trailing_general(defs, init_used(defs), toks, Map::empty(), None, i);
}

/// A dash-prefixed token that resolves to no definition fails the parse,
/// whatever mid-parse state it is met in.
proof fn lemma_unknown_general(
    defs: Seq<ArgModel>,
    used: Seq<bool>,
    toks: Seq<Seq<char>>,
    out: Map<Seq<char>, Option<Seq<char>>>,
    pending: Option<int>,
    j: int,
)
    requires
        0 <= j < toks.len(),
        starts_dash(toks[j]),
        resolve(defs, toks[j]) is None,
    ensures
        parse_from(defs, used, toks, out, pending) is Err,
    decreases toks.len(),
{
    let t = toks[0];
    let rest = toks.drop_first();
    if j > 0 {
        assert(rest[j - 1] == toks[j]);
        if starts_dash(t) {
            match pending {
                Some(_) => {},
                None => {
                    match resolve(defs, t) {
                        Some(i0) => {
                            if defs[i0].expecting {
                                lemma_unknown_general(defs, used, rest, out, Some(i0), j - 1);
                            } else if !out.contains_key(defs[i0].name) {
                                lemma_unknown_general(
                                    defs,
                                    used,
                                    rest,
                                    out.insert(defs[i0].name, None),
                                    None,
                                    j - 1,
                                );
                            }
                        },
                        None => {},
                    }
                },
            }
        } else {
            match pending {
                Some(p) => {
                    if !out.contains_key(defs[p].name) {
                        lemma_unknown_general(
                            defs,
                            used,
                            rest,
                            out.insert(defs[p].name, Some(t)),
                            None,
                            j - 1,
                        );
                    }
                },
                None => {
                    match find_param_from(defs, used, 0) {
                        Some(jj) => {
                            if !out.contains_key(defs[jj].name) {
                                lemma_unknown_general(
                                    defs,
                                    used.update(jj, true),
                                    rest,
                                    out.insert(defs[jj].name, Some(t)),
                                    None,
                                    j - 1,
                                );
                            }
                        },
                        None => {},
                    }
                },
            }
        }
    }
}

/// A dash-prefixed token matching no registered long name or short alias
/// always fails the parse.
pub proof fn lemma_unknown_token(defs: Seq<ArgModel>, toks: Seq<Seq<char>>, j: int)
    requires
        0 <= j < toks.len(),
        starts_dash(toks[j]),
        resolve(defs, toks[j]) is None,
    ensures
        spec_parse(defs, toks) is Err,
{
    lemma_unknown_general(defs, init_used(defs), toks, Map::empty(), None, j);
}

/// Some token of the sequence invokes a definition carrying this name.
pub open spec fn invoked(defs: Seq<ArgModel>, toks: Seq<Seq<char>>, k: Seq<char>) -> bool {
    exists|j: int, i: int|
        0 <= j < toks.len() && resolve(defs, toks[j]) == Some(i) && defs[i].name == k
}

/// Some positional parameter registered with an open slot carries this
/// name.
pub open spec fn names_open_param(defs: Seq<ArgModel>, k: Seq<char>) -> bool {
    exists|i: int| 0 <= i < defs.len() && defs[i].kind == ArgKind::Param(false) && defs[i].name == k
}

/// On success, every open positional parameter's name is in the final
/// mapping: the parse fails unless all slots are filled.
proof fn lemma_open_param_filled(
    defs: Seq<ArgModel>,
    used: Seq<bool>,
    toks: Seq<Seq<char>>,
    out: Map<Seq<char>, Option<Seq<char>>>,
    pending: Option<int>,
    i: int,
)
    requires
        used.len() == defs.len(),
        parse_from(defs, used, toks, out, pending) is Ok,
        0 <= i < defs.len(),
        open_param(defs, used, i),
    ensures
        ok_map(parse_from(defs, used, toks, out, pending)).contains_key(defs[i].name),
    decreases toks.len(),
{
    if toks.len() == 0 {
        lemma_find_param_char(defs, used, 0);
        assert(find_param_from(defs, used, 0) is Some);
    } else {
        let t = toks[0];
        let rest = toks.drop_first();
        if starts_dash(t) {
            match resolve(defs, t) {
                Some(i0) => {
                    if defs[i0].expecting {
                        lemma_open_param_filled(defs, used, rest, out, Some(i0), i);
                    } else if !out.contains_key(defs[i0].name) {
                        lemma_open_param_filled(
                            defs,
                            used,
                            rest,
                            out.insert(defs[i0].name, None),
                            None,
                            i,
                        );
                    }
                },
                None => {},
            }
        } else {
            match pending {
                Some(p) => {
                    if !out.contains_key(defs[p].name) {
                        lemma_open_param_filled(
                            defs,
                            used,
                            rest,
                            out.insert(defs[p].name, Some(t)),
                            None,
                            i,
                        );
                    }
                },
                None => {
                    match find_param_from(defs, used, 0) {
                        Some(jj) => {
                            if !out.contains_key(defs[jj].name) {
                                lemma_find_param_char(defs, used, 0);
                                assert(used.update(jj, true).len() == used.len());
                                if jj == i {
                                    lemma_bindings_persist(
                                        defs,
                                        used.update(jj, true),
                                        rest,
                                        out.insert(defs[jj].name, Some(t)),
                                        None,
                                        defs[i].name,
                                    );
                                } else {
                                    lemma_open_param_filled(
                                        defs,
                                        used.update(jj, true),
                                        rest,
                                        out.insert(defs[jj].name, Some(t)),
                                        None,
                                        i,
                                    );
                                }
                            }
                        },
                        None => {},
                    }
                },
            }
        }
    }
}

/// On success, every key of the final mapping was already bound, is the
/// name of a definition some remaining token invokes, is the name of a
/// still-open positional parameter, or is the name of the option pending
/// right now.
proof fn lemma_keys_come_from(
    defs: Seq<ArgModel>,
    used: Seq<bool>,
    toks: Seq<Seq<char>>,
    out: Map<Seq<char>, Option<Seq<char>>>,
    pending: Option<int>,
    k: Seq<char>,
)
    requires
        used.len() == defs.len(),
        parse_from(defs, used, toks, out, pending) is Ok,
        ok_map(parse_from(defs, used, toks, out, pending)).contains_key(k),
    ensures
        out.contains_key(k) || invoked(defs, toks, k) || (exists|i: int|
            0 <= i < defs.len() && open_param(defs, used, i) && defs[i].name == k) || (
        pending matches Some(p) && defs[p].name == k),
    decreases toks.len(),
{
    if toks.len() > 0 {
        let t = toks[0];
        let rest = toks.drop_first();
        if starts_dash(t) {
            match resolve(defs, t) {
                Some(i0) => {
                    if defs[i0].expecting {
                        lemma_keys_come_from(defs, used, rest, out, Some(i0), k);
                        if invoked(defs, rest, k) {
                            let (jr, ir) = choose|jr: int, ir: int|
                                0 <= jr < rest.len() && resolve(defs, rest[jr]) == Some(ir)
                                    && defs[ir].name == k;
                            assert(toks[jr + 1] == rest[jr]);
                            assert(invoked(defs, toks, k));
                        }
                        if defs[i0].name == k {
                            assert(invoked(defs, toks, k));
                        }
                    } else if !out.contains_key(defs[i0].name) {
                        lemma_keys_come_from(
                            defs,
                            used,
                            rest,
                            out.insert(defs[i0].name, None),
                            None,
                            k,
                        );
                        if invoked(defs, rest, k) {
                            let (jr, ir) = choose|jr: int, ir: int|
                                0 <= jr < rest.len() && resolve(defs, rest[jr]) == Some(ir)
                                    && defs[ir].name == k;
                            assert(toks[jr + 1] == rest[jr]);
                            assert(invoked(defs, toks, k));
                        }
                        if defs[i0].name == k {
                            assert(invoked(defs, toks, k));
                        }
                    }
                },
                None => {},
            }
        } else {
            match pending {
                Some(p) => {
                    if !out.contains_key(defs[p].name) {
                        lemma_keys_come_from(
                            defs,
                            used,
                            rest,
                            out.insert(defs[p].name, Some(t)),
                            None,
                            k,
                        );
                        if invoked(defs, rest, k) {
                            let (jr, ir) = choose|jr: int, ir: int|
                                0 <= jr < rest.len() && resolve(defs, rest[jr]) == Some(ir)
                                    && defs[ir].name == k;
                            assert(toks[jr + 1] == rest[jr]);
                            assert(invoked(defs, toks, k));
                        }
                    }
                },
                None => {
                    match find_param_from(defs, used, 0) {
                        Some(jj) => {
                            if !out.contains_key(defs[jj].name) {
                                lemma_find_param_char(defs, used, 0);
                                lemma_keys_come_from(
                                    defs,
                                    used.update(jj, true),
                                    rest,
                                    out.insert(defs[jj].name, Some(t)),
                                    None,
                                    k,
                                );
                                if invoked(defs, rest, k) {
                                    let (jr, ir) = choose|jr: int, ir: int|
                                        0 <= jr < rest.len() && resolve(defs, rest[jr]) == Some(ir)
                                            && defs[ir].name == k;
                                    assert(toks[jr + 1] == rest[jr]);
                                    assert(invoked(defs, toks, k));
                                }
                                if exists|i: int|
                                    0 <= i < defs.len() && open_param(defs, used.update(jj, true), i)
                                        && defs[i].name == k {
                                    let i = choose|i: int|
                                        0 <= i < defs.len() && open_param(
                                            defs,
                                            used.update(jj, true),
                                            i,
                                        ) && defs[i].name == k;
                                    assert(open_param(defs, used, i));
                                }
                                if defs[jj].name == k {
                                    assert(open_param(defs, used, jj));
                                }
                            }
                        },
                        None => {},
                    }
                },
            }
        }
    }
}

/// The keys of a successful result are exactly the names actually invoked
/// by some token, together with the names of all positional parameters
/// registered with an open slot — those are mandatory.
pub proof fn lemma_result_keys(defs: Seq<ArgModel>, toks: Seq<Seq<char>>, k: Seq<char>)
    ensures
        spec_parse(defs, toks) matches Ok(m) ==> (m.contains_key(k) <==> invoked(defs, toks, k)
            || names_open_param(defs, k)),
{
    if spec_parse(defs, toks) is Ok {
        assert(forall|i: int|
            0 <= i < defs.len() ==> (#[trigger] open_param(defs, init_used(defs), i)
                <==> defs[i].kind == ArgKind::Param(false)));
        if ok_map(spec_parse(defs, toks)).contains_key(k) {
            lemma_keys_come_from(defs, init_used(defs), toks, Map::empty(), None, k);
        }
        if invoked(defs, toks, k) {
            let (j, i) = choose|j: int, i: int|
                0 <= j < toks.len() && resolve(defs, toks[j]) == Some(i) && defs[i].name == k;
            lemma_resolved_recorded(defs, init_used(defs), toks, Map::empty(), None, j, i);
        }
        if names_open_param(defs, k) {
            let i = choose|i: int|
                0 <= i < defs.len() && defs[i].kind == ArgKind::Param(false) && defs[i].name == k;
            lemma_open_param_filled(defs, init_used(defs), toks, Map::empty(), None, i);
        }
    }
}

/// How many tokens of the sequence do not begin with a dash.
pub open spec fn count_bare(toks: Seq<Seq<char>>) -> int
    decreases toks.len(),
{
    if toks.len() == 0 {
        0
    } else {
        (if starts_dash(toks[0]) {
            0int
        } else {
            1int
        }) + count_bare(toks.drop_first())
    }
}

/// How many tokens of the sequence resolve to a value-expecting
/// definition.
pub open spec fn count_value_invocations(defs: Seq<ArgModel>, toks: Seq<Seq<char>>) -> int
    decreases toks.len(),
{
    if toks.len() == 0 {
        0
    } else {
        (match resolve(defs, toks[0]) {
            Some(i) => if defs[i].expecting {
                1int
            } else {
                0int
            },
            None => 0int,
        }) + count_value_invocations(defs, toks.drop_first())
    }
}

/// How many positional slots at or after `i` are still open.
pub open spec fn count_open_from(defs: Seq<ArgModel>, used: Seq<bool>, i: int) -> int
    decreases defs.len() - i,
{
    if i < 0 || i >= defs.len() {
        0
    } else {
        (if open_param(defs, used, i) {
            1int
        } else {
            0int
        }) + count_open_from(defs, used, i + 1)
    }
}

/// Consuming one open slot lowers the count of open slots at or before it
/// by one and leaves the count after it alone.
proof fn lemma_count_open_update(defs: Seq<ArgModel>, used: Seq<bool>, jj: int, i: int)
    requires
        used.len() == defs.len(),
        0 <= i,
        0 <= jj < defs.len(),
        open_param(defs, used, jj),
    ensures
        count_open_from(defs, used.update(jj, true), i) == count_open_from(defs, used, i) - (
        if i <= jj {
            1int
        } else {
            0int
        }),
    decreases defs.len() - i,
{
    if i < defs.len() {
        lemma_count_open_update(defs, used, jj, i + 1);
        if i != jj {
            assert(open_param(defs, used.update(jj, true), i) == open_param(defs, used, i));
        } else {
            assert(!open_param(defs, used.update(jj, true), i));
        }
    }
}

/// No open slot remains at or after `i` exactly when the scan from `i`
/// finds none.
proof fn lemma_count_open_none(defs: Seq<ArgModel>, used: Seq<bool>, i: int)
    requires
        0 <= i,
    ensures
        count_open_from(defs, used, i) == 0 <==> find_param_from(defs, used, i) is None,
        count_open_from(defs, used, i) >= 0,
    decreases defs.len() - i,
{
    if i < defs.len() {
        lemma_count_open_none(defs, used, i + 1);
    }
}

/// The books balance on every successful parse, from any mid-parse state:
/// each bare token either answers the pending option, answers a later
/// value-expecting invocation, or fills an open positional slot, and by
/// the end nothing is left over on either side.
proof fn lemma_accounting_general(
    defs: Seq<ArgModel>,
    used: Seq<bool>,
    toks: Seq<Seq<char>>,
    out: Map<Seq<char>, Option<Seq<char>>>,
    pending: Option<int>,
)
    requires
        used.len() == defs.len(),
        parse_from(defs, used, toks, out, pending) is Ok,
    ensures
        count_bare(toks) == (if pending is Some {
            1int
        } else {
            0int
        }) + count_value_invocations(defs, toks) + count_open_from(defs, used, 0),
    decreases toks.len(),
{
    if toks.len() == 0 {
        lemma_count_open_none(defs, used, 0);
    } else {
        let t = toks[0];
        let rest = toks.drop_first();
        if starts_dash(t) {
            match resolve(defs, t) {
                Some(i0) => {
                    if defs[i0].expecting {
                        lemma_accounting_general(defs, used, rest, out, Some(i0));
                    } else if !out.contains_key(defs[i0].name) {
                        lemma_accounting_general(
                            defs,
                            used,
                            rest,
                            out.insert(defs[i0].name, None),
                            None,
                        );
                    }
                },
                None => {},
            }
        } else {
            assert(resolve(defs, t) is None);
            match pending {
                Some(p) => {
                    if !out.contains_key(defs[p].name) {
                        lemma_accounting_general(
                            defs,
                            used,
                            rest,
                            out.insert(defs[p].name, Some(t)),
                            None,
                        );
                    }
                },
                None => {
                    match find_param_from(defs, used, 0) {
                        Some(jj) => {
                            if !out.contains_key(defs[jj].name) {
                                lemma_find_param_char(defs, used, 0);
                                lemma_accounting_general(
                                    defs,
                                    used.update(jj, true),
                                    rest,
                                    out.insert(defs[jj].name, Some(t)),
                                    None,
                                );
                                lemma_count_open_update(defs, used, jj, 0);
                            }
                        },
                        None => {},
                    }
                },
            }
        }
    }
}

/// On every successful parse, the count of bare tokens equals the count
/// of value-expecting invocations plus the count of positional parameters
/// registered with an open slot: each bare token either serves as some
/// option's value or fills a slot, and every slot gets filled.
pub proof fn lemma_token_accounting(defs: Seq<ArgModel>, toks: Seq<Seq<char>>)
    ensures
        spec_parse(defs, toks) is Ok ==> count_bare(toks) == count_value_invocations(defs, toks)
            + count_open_from(defs, init_used(defs), 0),
{
    if spec_parse(defs, toks) is Ok {
        lemma_accounting_general(defs, init_used(defs), toks, Map::empty(), None);
    }
}

/// Too few bare tokens to fill the open positional slots: the parse
/// fails, some parameter is necessarily left unsupplied.
pub proof fn lemma_missing_param(defs: Seq<ArgModel>, toks: Seq<Seq<char>>)
    requires
        count_bare(toks) < count_open_from(defs, init_used(defs), 0),
    ensures
        spec_parse(defs, toks) is Err,
{
    lemma_token_accounting(defs, toks);
    lemma_count_value_invocations_nonneg(defs, toks);
}

/// More bare tokens than value-expecting invocations and open positional
/// slots together: the parse fails, some bare token necessarily has no
/// pending option and no open slot to go to.
pub proof fn lemma_excess_bare_tokens(defs: Seq<ArgModel>, toks: Seq<Seq<char>>)
    requires
        count_bare(toks) > count_value_invocations(defs, toks) + count_open_from(
            defs,
            init_used(defs),
            0,
        ),
    ensures
        spec_parse(defs, toks) is Err,
{
    lemma_token_accounting(defs, toks);
}

/// The count of value-expecting invocations is never negative.
proof fn lemma_count_value_invocations_nonneg(defs: Seq<ArgModel>, toks: Seq<Seq<char>>)
    ensures
        count_value_invocations(defs, toks) >= 0,
    decreases toks.len(),
{
    if toks.len() > 0 {
        lemma_count_value_invocations_nonneg(defs, toks.drop_first());
    }
}

/// The token resolves to a definition that expects no trailing value.
pub open spec fn resolves_to_flag(defs: Seq<ArgModel>, t: Seq<char>) -> bool {
    match resolve(defs, t) {
        Some(i) => !defs[i].expecting,
        None => false,
    }
}

/// The name of the definition a token resolves to; immaterial for a token
/// resolving to none.
pub open spec fn resolved_name(defs: Seq<ArgModel>, t: Seq<char>) -> Seq<char> {
    match resolve(defs, t) {
        Some(i) => defs[i].name,
        None => Seq::empty(),
    }
}

/// From a state with no option pending and no open slot, a run of tokens
/// that all resolve to value-free definitions with pairwise distinct
/// names, none of them bound yet, parses to the end without failing.
proof fn lemma_flags_only_general(
    defs: Seq<ArgModel>,
    used: Seq<bool>,
    toks: Seq<Seq<char>>,
    out: Map<Seq<char>, Option<Seq<char>>>,
)
    requires
        forall|j: int| 0 <= j < toks.len() ==> resolves_to_flag(defs, toks[j]),
        forall|j1: int, j2: int|
            0 <= j1 < j2 < toks.len() ==> resolved_name(defs, toks[j1]) != resolved_name(
                defs,
                toks[j2],
            ),
        forall|j: int| 0 <= j < toks.len() ==> !out.contains_key(resolved_name(defs, toks[j])),
        find_param_from(defs, used, 0) is None,
    ensures
        parse_from(defs, used, toks, out, None) is Ok,
    decreases toks.len(),
{
    if toks.len() > 0 {
        let t = toks[0];
        let rest = toks.drop_first();
        assert(resolves_to_flag(defs, t));
        match resolve(defs, t) {
            Some(i0) => {
                assert(starts_dash(t));
                assert(!out.contains_key(defs[i0].name));
                let out2 = out.insert(defs[i0].name, None);
                assert forall|j: int| 0 <= j < rest.len() implies resolves_to_flag(
                    defs,
                    rest[j],
                ) by {
                    assert(rest[j] == toks[j + 1]);
                }
                assert forall|j1: int, j2: int| 0 <= j1 < j2 < rest.len() implies resolved_name(
                    defs,
                    rest[j1],
                ) != resolved_name(defs, rest[j2]) by {
                    assert(rest[j1] == toks[j1 + 1]);
                    assert(rest[j2] == toks[j2 + 1]);
                }
                assert forall|j: int| 0 <= j < rest.len() implies !out2.contains_key(
                    resolved_name(defs, rest[j]),
                ) by {
                    assert(rest[j] == toks[j + 1]);
                    assert(resolved_name(defs, toks[j + 1]) != resolved_name(defs, toks[0]));
                }
                lemma_flags_only_general(defs, used, rest, out2);
            },
            None => {
                assert(false);
            },
        }
    }
}

/// A sequence of value-free invocations — flags, by long name or alias —
/// with pairwise distinct names, against definitions with no open
/// positional slot, parses without any error, and the result maps each
/// invoked name to no value.
pub proof fn lemma_distinct_flags_succeed(defs: Seq<ArgModel>, toks: Seq<Seq<char>>)
    requires
        forall|j: int| 0 <= j < toks.len() ==> resolves_to_flag(defs, toks[j]),
        forall|j1: int, j2: int|
            0 <= j1 < j2 < toks.len() ==> resolved_name(defs, toks[j1]) != resolved_name(
                defs,
                toks[j2],
            ),
        forall|i: int| 0 <= i < defs.len() ==> defs[i].kind != ArgKind::Param(false),
    ensures
        spec_parse(defs, toks) is Ok,
        forall|j: int|
            0 <= j < toks.len() ==> ok_map(spec_parse(defs, toks)).contains_key(
                resolved_name(defs, toks[j]),
            ) && ok_map(spec_parse(defs, toks))[resolved_name(defs, toks[j])] is None,
{
    lemma_find_param_char(defs, init_used(defs), 0);
    lemma_flags_only_general(defs, init_used(defs), toks, Map::empty());
    assert forall|j: int| 0 <= j < toks.len() implies ok_map(spec_parse(defs, toks)).contains_key(
        resolved_name(defs, toks[j]),
    ) && ok_map(spec_parse(defs, toks))[resolved_name(defs, toks[j])] is None by {
        match resolve(defs, toks[j]) {
            Some(i) => {
                lemma_resolved_recorded(defs, init_used(defs), toks, Map::empty(), None, j, i);
            },
            None => {},
        }
    }
}

/// Attaching a short alias and choosing the positional role commute: the
/// two orders configure the same definition.
pub proof fn lemma_short_commutes_with_param(a: ArgModel, name: Seq<char>, c: char)
    ensures
        with_short(with_param(a, name), c) == with_param(with_short(a, c), name),
{
}

/// Attaching a short alias and choosing the value-option role commute.
pub proof fn lemma_short_commutes_with_input(a: ArgModel, name: Seq<char>, c: char)
    ensures
        with_short(with_input(a, name), c) == with_input(with_short(a, c), name),
{
}

/// Attaching a short alias and choosing the flag role commute.
pub proof fn lemma_short_commutes_with_flag(a: ArgModel, name: Seq<char>, c: char)
    ensures
        with_short(with_flag(a, name), c) == with_flag(with_short(a, c), name),
{
}

/// Role-choosing calls are not independent of one another: the later one
/// overwrites the earlier, keeping only the short alias.
pub proof fn lemma_role_overwrites(a: ArgModel, n1: Seq<char>, n2: Seq<char>)
    ensures
        with_flag(with_input(a, n1), n2) == with_flag(a, n2),
        with_input(with_flag(a, n1), n2) == with_input(a, n2),
        with_param(with_input(a, n1), n2) == with_param(a, n2),
        with_input(with_param(a, n1), n2) == with_input(a, n2),
{
}

} // verus!
