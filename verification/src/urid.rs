//! The type/identifier mapping bridge: translation between stable string
//! identifiers and process-local integer identifiers ("urids"), used to tag
//! every stored value's data type.

use vstd::prelude::*;

verus! {

/// The integer that `uri` maps to in the table `m`: the identifier already
/// issued for it, or the one a fresh entry would receive; 0 when the table
/// cannot grow further (space exhaustion).
pub open spec fn spec_map_urid(m: Seq<Seq<char>>, uri: Seq<char>) -> u32 {
    match m.index_of_first(uri) {
        Some(i) => (i + 1) as u32,
        None => if m.len() < u32::MAX as nat {
            (m.len() + 1) as u32
        } else {
            0
        },
    }
}

/// The table after `uri` has been mapped: unchanged when `uri` is already
/// present or the table is full, extended by one entry otherwise.
pub open spec fn spec_map_state(m: Seq<Seq<char>>, uri: Seq<char>) -> Seq<Seq<char>> {
    if m.contains(uri) || m.len() >= u32::MAX as nat {
        m
    } else {
        m.push(uri)
    }
}

/// The string identifier behind an issued integer, when `urid` was in fact
/// issued by a table in state `m`.
pub open spec fn spec_unmap(m: Seq<Seq<char>>, urid: u32) -> Option<Seq<char>> {
    if 1 <= urid <= m.len() {
        Some(m[urid - 1])
    } else {
        None
    }
}

/// A well-formed mapping table: no two entries carry the same identifier
/// string, so the translation is a bijection between the issued integers and
/// the strings seen so far; and every entry owns an integer, so the table
/// never outgrows them.
pub open spec fn map_view_wf(m: Seq<Seq<char>>) -> bool {
    &&& forall|i: int, j: int| 0 <= i < j < m.len() ==> m[i] != m[j]
    &&& m.len() <= u32::MAX
}

/// Bidirectional translation between string identifiers and process-local
/// integer identifiers.
///
/// Identifiers are issued from 1 upward in order of first appearance; 0 is
/// never issued and marks exhaustion. An identifier, once issued, is never
/// reused and never changes meaning. The view of a map is the sequence of
/// identifier strings in order of issue: string `self@[i]` owns integer
/// `i + 1`.
pub struct UridMap {
    uris: Vec<String>,
}

impl View for UridMap {
    type V = Seq<Seq<char>>;

    closed spec fn view(&self) -> Seq<Seq<char>> {
        Seq::new(self.uris@.len(), |i: int| self.uris@[i]@)
    }
}

impl UridMap {
    /// See [`map_view_wf`].
    pub open spec fn wf(&self) -> bool {
        map_view_wf(self@)
    }

    /// A fresh mapping service with no identifier issued yet.
    pub fn new() -> (r: UridMap)
        ensures
            r@.len() == 0,
            r.wf(),
    {
        UridMap { uris: Vec::new() }
    }

    /// How many identifiers have been issued.
    pub fn len(&self) -> (n: usize)
        ensures
            n == self@.len(),
    {
        self.uris.len()
    }

    /// Translate a string identifier to its integer, issuing a fresh integer
    /// for an unseen string. Total but for space exhaustion, which returns 0.
    pub fn map(&mut self, uri: &str) -> (urid: u32)
        requires
            old(self).wf(),
        ensures
            final(self).wf(),
            urid == spec_map_urid(old(self)@, uri@),
            final(self)@ == spec_map_state(old(self)@, uri@),
    {
        let ghost m = self@;
        let owned: String = uri.to_owned();
        let n = self.uris.len();
        let mut i: usize = 0;
        while i < n
            invariant
                m == self@,
                n == self@.len(),
                n <= u32::MAX,
                i <= n,
                self == old(self),
                old(self).wf(),
                owned@ == uri@,
                forall|j: int| 0 <= j < i ==> self@[j] != uri@,
            decreases n - i,
        {
            if self.uris[i] == owned {
                proof {
                    lemma_index_of_first_is(m, uri@, i as int);
                    assert(m.contains(uri@)) by {
                        assert(m[i as int] == uri@);
                    }
                }
                return (i + 1) as u32;
            }
            i += 1;
        }
        proof {
            assert(forall|j: int| 0 <= j < m.len() ==> m[j] != uri@);
            lemma_index_of_first_absent(m, uri@);
            assert(!m.contains(uri@));
        }
        if n < (u32::MAX as usize) {
            self.uris.push(owned);
            proof {
                assert(self@ =~= m.push(uri@));
            }
            (n + 1) as u32
        } else {
            0
        }
    }

    /// Translate an issued integer back to its string identifier; an integer
    /// never issued by this map yields `None`.
    pub fn unmap(&self, urid: u32) -> (r: Option<&String>)
        ensures
            match r {
                Some(s) => spec_unmap(self@, urid) == Some(s@),
                None => spec_unmap(self@, urid) is None,
            },
    {
        if 1 <= urid && (urid as usize) <= self.uris.len() {
            Some(&self.uris[(urid - 1) as usize])
        } else {
            None
        }
    }
}

/// When `uri` first occurs at position `i`, that position is what
/// `index_of_first` finds.
pub proof fn lemma_index_of_first_is(m: Seq<Seq<char>>, uri: Seq<char>, i: int)
    requires
        0 <= i < m.len(),
        m[i] == uri,
        forall|j: int| 0 <= j < i ==> m[j] != uri,
    ensures
        m.index_of_first(uri) == Some(i),
{
    m.index_of_first_ensures(uri);
    assert(m.contains(uri));
    match m.index_of_first(uri) {
        Some(k) => {
            if k < i {
                assert(m[k] != uri);
            } else if k > i {
                assert(m[i] != uri);
            }
        },
        None => {
            assert(!m.contains(uri));
        },
    }
}

/// A string that occurs nowhere in the table is not found.
pub proof fn lemma_index_of_first_absent(m: Seq<Seq<char>>, uri: Seq<char>)
    requires
        forall|j: int| 0 <= j < m.len() ==> m[j] != uri,
    ensures
        m.index_of_first(uri) is None,
        !m.contains(uri),
{
    m.index_of_first_ensures(uri);
    assert(!m.contains(uri));
    match m.index_of_first(uri) {
        Some(k) => {
            assert(m[k] == uri);
        },
        None => {},
    }
}

/// Mapping never erases an entry: a table only grows at the end, so the old
/// table is a prefix of the new one.
pub proof fn lemma_map_state_extends(m: Seq<Seq<char>>, uri: Seq<char>)
    ensures
        m.is_prefix_of(spec_map_state(m, uri)),
{
    if !(m.contains(uri) || m.len() >= u32::MAX as nat) {
        assert(m.push(uri).subrange(0, m.len() as int) =~= m);
    } else {
        assert(m.subrange(0, m.len() as int) =~= m);
    }
}

/// An identifier already present keeps its integer under any later growth of
/// the table: issued integers are never reused or reassigned.
pub proof fn lemma_prefix_preserves_urid(m: Seq<Seq<char>>, m2: Seq<Seq<char>>, uri: Seq<char>)
    requires
        m.is_prefix_of(m2),
        m.contains(uri),
    ensures
        spec_map_urid(m2, uri) == spec_map_urid(m, uri),
        m2.contains(uri),
    decreases m2.len(),
{
    m.index_of_first_ensures(uri);
    let i = m.index_of_first(uri).unwrap();
    assert(m2[i] == m[i]);
    assert(forall|j: int| 0 <= j < i ==> m2[j] == m[j] && m2[j] != uri);
    lemma_index_of_first_is(m2, uri, i);
}

/// Mapping a string puts it in the table, unless the table is full.
pub proof fn lemma_map_state_contains(m: Seq<Seq<char>>, uri: Seq<char>)
    requires
        m.len() < u32::MAX as nat,
    ensures
        spec_map_state(m, uri).contains(uri),
        spec_map_urid(spec_map_state(m, uri), uri) == spec_map_urid(m, uri),
        1 <= spec_map_urid(m, uri) <= spec_map_state(m, uri).len(),
        spec_map_state(m, uri)[spec_map_urid(m, uri) - 1] == uri,
{
    m.index_of_first_ensures(uri);
    if m.contains(uri) {
        let i = m.index_of_first(uri).unwrap();
    } else {
        let m2 = m.push(uri);
        assert(m2[m.len() as int] == uri);
        assert(m2.contains(uri));
        lemma_index_of_first_is(m2, uri, m.len() as int);
    }
}

/// Mapping a second time is harmless: the same integer comes back and the
/// table does not change. Together with `lemma_prefix_preserves_urid` this
/// makes the issued tags a deterministic function of the strings seen.
pub proof fn lemma_map_idempotent(m: Seq<Seq<char>>, uri: Seq<char>)
    ensures
        spec_map_state(spec_map_state(m, uri), uri) == spec_map_state(m, uri),
        spec_map_urid(spec_map_state(m, uri), uri) == spec_map_urid(m, uri),
{
    m.index_of_first_ensures(uri);
    if m.len() < u32::MAX as nat {
        lemma_map_state_contains(m, uri);
    } else {
        assert(spec_map_state(m, uri) == m);
    }
}

/// In a well-formed table the translation is a bijection: the string behind
/// an issued integer maps back to that integer.
pub proof fn lemma_unmap_map_inverse(m: Seq<Seq<char>>, urid: u32)
    requires
        forall|i: int, j: int| 0 <= i < j < m.len() ==> m[i] != m[j],
        1 <= urid <= m.len(),
    ensures
        spec_map_urid(m, m[urid - 1]) == urid,
        spec_map_state(m, m[urid - 1]) == m,
{
    let k = urid - 1;
    assert forall|j: int| 0 <= j < k implies m[j] != m[k as int] by {}
    lemma_index_of_first_is(m, m[k as int], k as int);
    assert(m.contains(m[k as int]));
}

} // verus!
