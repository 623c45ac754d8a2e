//! The result mapping a successful parse call produces.

use vstd::prelude::*;

verus! {

/// No two entries share a key.
pub open spec fn distinct_keys(s: Seq<(Seq<char>, Option<Seq<char>>)>) -> bool {
    forall|i: int, j: int| 0 <= i < j < s.len() ==> s[i].0 != s[j].0
}

/// The mapping an entry sequence stands for: later entries would shadow
/// earlier ones, though the parser never stores a key twice.
pub open spec fn assoc_map(s: Seq<(Seq<char>, Option<Seq<char>>)>) -> Map<
    Seq<char>,
    Option<Seq<char>>,
>
    decreases s.len(),
{
    if s.len() == 0 {
        Map::empty()
    } else {
        assoc_map(s.drop_last()).insert(s.last().0, s.last().1)
    }
}

/// A key is in the mapping exactly when some entry carries it.
pub proof fn lemma_assoc_map_contains(s: Seq<(Seq<char>, Option<Seq<char>>)>, k: Seq<char>)
    ensures
        assoc_map(s).contains_key(k) <==> exists|i: int| 0 <= i < s.len() && s[i].0 == k,
    decreases s.len(),
{
    if s.len() > 0 {
        let prefix = s.drop_last();
        lemma_assoc_map_contains(prefix, k);
        if s.last().0 == k {
            assert(s[s.len() - 1].0 == k);
        } else {
            if exists|i: int| 0 <= i < prefix.len() && prefix[i].0 == k {
                let i = choose|i: int| 0 <= i < prefix.len() && prefix[i].0 == k;
                assert(s[i].0 == k);
            }
            if exists|i: int| 0 <= i < s.len() && s[i].0 == k {
                let i = choose|i: int| 0 <= i < s.len() && s[i].0 == k;
                assert(prefix[i].0 == k);
            }
        }
    }
}

/// With distinct keys, the mapping sends each entry's key to its value.
pub proof fn lemma_assoc_map_value(s: Seq<(Seq<char>, Option<Seq<char>>)>, i: int)
    requires
        distinct_keys(s),
        0 <= i < s.len(),
    ensures
        assoc_map(s).contains_key(s[i].0),
        assoc_map(s)[s[i].0] == s[i].1,
    decreases s.len(),
{
    lemma_assoc_map_contains(s, s[i].0);
    if i < s.len() - 1 {
        let prefix = s.drop_last();
        assert(distinct_keys(prefix)) by {
            assert(forall|x: int, y: int|
                0 <= x < y < prefix.len() ==> prefix[x].0 == s[x].0 && prefix[y].0 == s[y].0);
        }
        lemma_assoc_map_value(prefix, i);
        assert(s.last().0 != s[i].0);
    }
}

/// With distinct keys, the mapping has exactly one key per entry.
pub proof fn lemma_assoc_map_len(s: Seq<(Seq<char>, Option<Seq<char>>)>)
    requires
        distinct_keys(s),
    ensures
        assoc_map(s).dom().finite(),
        assoc_map(s).dom().len() == s.len(),
    decreases s.len(),
{
    if s.len() > 0 {
        let prefix = s.drop_last();
        assert(distinct_keys(prefix)) by {
            assert(forall|x: int, y: int|
                0 <= x < y < prefix.len() ==> prefix[x].0 == s[x].0 && prefix[y].0 == s[y].0);
        }
        lemma_assoc_map_len(prefix);
        lemma_assoc_map_contains(prefix, s.last().0);
        assert(!assoc_map(prefix).contains_key(s.last().0)) by {
            if exists|i: int| 0 <= i < prefix.len() && prefix[i].0 == s.last().0 {
                let i = choose|i: int| 0 <= i < prefix.len() && prefix[i].0 == s.last().0;
                assert(s[i].0 == s[s.len() - 1].0);
            }
        }
        assert(assoc_map(s).dom() =~= assoc_map(prefix).dom().insert(s.last().0));
    }
}

/// The mapping from argument name to optional value that a successful
/// parse call returns. Keys are present only for arguments actually
/// encountered; a flag's key carries no value.
#[derive(Debug)]
pub struct ParseOutput {
    entries: Vec<(String, Option<String>)>,
}

impl View for ParseOutput {
    type V = Map<Seq<char>, Option<Seq<char>>>;

    closed spec fn view(&self) -> Map<Seq<char>, Option<Seq<char>>> {
        assoc_map(self.entries.deep_view())
    }
}

impl ParseOutput {
    #[verifier::type_invariant]
    spec fn wf(self) -> bool {
        distinct_keys(self.entries.deep_view())
    }

    /// An empty mapping.
    pub fn new() -> (r: ParseOutput)
        ensures
            r@ == Map::<Seq<char>, Option<Seq<char>>>::empty(),
    {
        let r = ParseOutput { entries: Vec::new() };
        proof {
            assert(r.entries.deep_view() =~= Seq::<(Seq<char>, Option<Seq<char>>)>::empty());
        }
        r
    }

    /// Adds a binding for a key not yet present.
    pub(crate) fn insert(&mut self, name: String, value: Option<String>)
        requires
            !old(self)@.contains_key(name@),
        ensures
            final(self)@ == old(self)@.insert(name@, value.deep_view()),
    {
        proof {
            use_type_invariant(&*self);
            lemma_assoc_map_contains(self.entries.deep_view(), name@);
        }
        let ghost old_entries = self.entries.deep_view();
        let mut entries: Vec<(String, Option<String>)> = Vec::new();
        core::mem::swap(&mut entries, &mut self.entries);
        proof {
            assert(self.entries.deep_view() =~= Seq::<(Seq<char>, Option<Seq<char>>)>::empty());
        }
        entries.push((name, value));
        proof {
            assert(entries.deep_view() =~= old_entries.push((name@, value.deep_view())));
            assert(entries.deep_view().drop_last() =~= old_entries);
            assert(forall|i: int| 0 <= i < old_entries.len() ==> old_entries[i].0 != name@);
        }
        self.entries = entries;
    }

    /// Whether an argument of this name was encountered.
    #[verifier::loop_isolation(false)]
    pub fn contains_key(&self, name: &str) -> (r: bool)
        ensures
            r == self@.contains_key(name@),
    {
        proof {
            use_type_invariant(&*self);
            lemma_assoc_map_contains(self.entries.deep_view(), name@);
        }
        let key: String = name.to_owned();
        let n = self.entries.len();
        let mut k: usize = 0;
        while k < n
            invariant
                k <= n,
                forall|j: int| 0 <= j < k ==> self.entries.deep_view()[j].0 != name@,
            decreases n - k,
        {
            if self.entries[k].0 == key {
                proof {
                    assert(self.entries.deep_view()[k as int].0 == name@);
                }
                return true;
            }
            k += 1;
        }
        false
    }

    /// The value recorded under this name: `None` when the name was never
    /// encountered, `Some(None)` for a flag, `Some(Some(v))` for a value.
    #[verifier::loop_isolation(false)]
    pub fn get(&self, name: &str) -> (r: Option<&Option<String>>)
        ensures
            match r {
                Some(v) => self@.contains_key(name@) && self@[name@] == v.deep_view(),
                None => !self@.contains_key(name@),
            },
    {
        proof {
            use_type_invariant(&*self);
            lemma_assoc_map_contains(self.entries.deep_view(), name@);
        }
        let key: String = name.to_owned();
        let n = self.entries.len();
        let mut k: usize = 0;
        while k < n
            invariant
                k <= n,
                forall|j: int| 0 <= j < k ==> self.entries.deep_view()[j].0 != name@,
            decreases n - k,
        {
            if self.entries[k].0 == key {
                proof {
                    assert(self.entries.deep_view()[k as int].0 == name@);
                    lemma_assoc_map_value(self.entries.deep_view(), k as int);
                }
                return Some(&self.entries[k].1);
            }
            k += 1;
        }
        None
    }

    /// How many argument names were encountered.
    pub fn len(&self) -> (r: usize)
        ensures
            r == self@.dom().len(),
    {
        proof {
            use_type_invariant(&*self);
            lemma_assoc_map_len(self.entries.deep_view());
        }
        self.entries.len()
    }
}

} // verus!
