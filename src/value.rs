//! The decoded value tree and its mathematical model.
use vstd::prelude::*;
use crate::bytes::{lex_lt, lemma_lex_total, lemma_lex_asymmetric, lemma_lex_transitive, lemma_lex_irreflexive, compare_bytes, BEStr};

verus! {

broadcast use {vstd::std_specs::vec::group_vec_axioms, vstd::seq::group_seq_axioms};

/// The model of a decoded value.
pub enum Value {
    Empty,
    Int(int),
    Str(Seq<u8>),
    List(Seq<Value>),
    Dict(Seq<(Seq<u8>, Value)>),
}

/// The keys of a dictionary model strictly ascend.
pub open spec fn keys_sorted(es: Seq<(Seq<u8>, Value)>) -> bool {
    forall|i: int, j: int| 0 <= i < j < es.len() ==> lex_lt(#[trigger] es[i].0, #[trigger] es[j].0)
}

pub open spec fn has_key(es: Seq<(Seq<u8>, Value)>, k: Seq<u8>) -> bool {
    exists|i: int| 0 <= i < es.len() && #[trigger] es[i].0 == k
}

/// How many leading entries have a key that sorts before `k`.
pub open spec fn rank(es: Seq<(Seq<u8>, Value)>, k: Seq<u8>) -> nat
    decreases es.len(),
{
    if es.len() == 0 {
        0
    } else if lex_lt(es[0].0, k) {
        1 + rank(es.drop_first(), k)
    } else {
        0
    }
}

/// `es` with the entry `(k, v)` put where its key belongs in ascending order.
pub open spec fn dict_insert(es: Seq<(Seq<u8>, Value)>, k: Seq<u8>, v: Value) -> Seq<(Seq<u8>, Value)> {
    es.insert(rank(es, k) as int, (k, v))
}

/// The value stored under `k`, if any.
pub open spec fn lookup(es: Seq<(Seq<u8>, Value)>, k: Seq<u8>) -> Option<Value>
    decreases es.len(),
{
    if es.len() == 0 {
        None
    } else if es[0].0 == k {
        Some(es[0].1)
    } else {
        lookup(es.drop_first(), k)
    }
}

pub proof fn lemma_rank_bounds(es: Seq<(Seq<u8>, Value)>, k: Seq<u8>)
    ensures
        rank(es, k) <= es.len(),
        forall|i: int| 0 <= i < rank(es, k) ==> lex_lt(#[trigger] es[i].0, k),
        rank(es, k) < es.len() ==> !lex_lt(es[rank(es, k) as int].0, k),
    decreases es.len(),
{
    if es.len() > 0 && lex_lt(es[0].0, k) {
        lemma_rank_bounds(es.drop_first(), k);
        assert forall|i: int| 0 <= i < rank(es, k) implies lex_lt(#[trigger] es[i].0, k) by {
            if i > 0 {
                assert(es[i] == es.drop_first()[i - 1]);
            }
        }
    }
}

/// Inserting a new key keeps the keys ascending.
pub proof fn lemma_insert_sorted(es: Seq<(Seq<u8>, Value)>, k: Seq<u8>, v: Value)
    requires
        keys_sorted(es),
        !has_key(es, k),
    ensures
        keys_sorted(dict_insert(es, k, v)),
        dict_insert(es, k, v).len() == es.len() + 1,
{
    lemma_rank_bounds(es, k);
    let r = rank(es, k) as int;
    let out = dict_insert(es, k, v);
    assert forall|j: int| r <= j < es.len() implies lex_lt(k, #[trigger] es[j].0) by {
        lemma_lex_total(k, es[r].0);
        assert(es[r].0 != k);
        if j > r {
            lemma_lex_transitive(k, es[r].0, es[j].0);
        }
    }
    assert forall|i: int, j: int| 0 <= i < j < out.len() implies lex_lt(#[trigger] out[i].0, #[trigger] out[j].0) by {
        if j < r {
        } else if j == r {
        } else if i < r {
            lemma_lex_transitive(es[i].0, k, es[j - 1].0);
        } else if i == r {
        } else {
        }
    }
}

/// A key above every key present goes at the end.
pub proof fn lemma_insert_last(es: Seq<(Seq<u8>, Value)>, k: Seq<u8>, v: Value)
    requires
        forall|i: int| 0 <= i < es.len() ==> lex_lt(#[trigger] es[i].0, k),
    ensures
        dict_insert(es, k, v) == es.push((k, v)),
        !has_key(es, k),
    decreases es.len(),
{
    if es.len() > 0 {
        assert forall|i: int| 0 <= i < es.drop_first().len() implies lex_lt(#[trigger] es.drop_first()[i].0, k) by {
            assert(es.drop_first()[i] == es[i + 1]);
        }
        lemma_insert_last(es.drop_first(), k, v);
    }
    lemma_rank_bounds(es, k);
    assert(rank(es, k) == es.len());
    assert(dict_insert(es, k, v) =~= es.push((k, v)));
    if has_key(es, k) {
        let i = choose|i: int| 0 <= i < es.len() && #[trigger] es[i].0 == k;
        lemma_lex_irreflexive(k);
    }
}

pub proof fn lemma_rank_at(es: Seq<(Seq<u8>, Value)>, k: Seq<u8>, i: int)
    requires
        0 <= i <= es.len(),
        forall|j: int| 0 <= j < i ==> lex_lt(#[trigger] es[j].0, k),
        i == es.len() || !lex_lt(es[i].0, k),
    ensures
        rank(es, k) == i,
    decreases es.len(),
{
    if i > 0 {
        let t = es.drop_first();
        assert forall|j: int| 0 <= j < i - 1 implies lex_lt(#[trigger] t[j].0, k) by {
            assert(t[j] == es[j + 1]);
        }
        if i < es.len() {
            assert(t[i - 1] == es[i]);
        }
        lemma_rank_at(t, k, i - 1);
    }
}

/// In ascending keys, a key is present only at its rank.
pub proof fn lemma_absent_unless_at_rank(es: Seq<(Seq<u8>, Value)>, k: Seq<u8>)
    requires
        keys_sorted(es),
        rank(es, k) == es.len() || es[rank(es, k) as int].0 != k,
    ensures
        !has_key(es, k),
{
    lemma_rank_bounds(es, k);
    let r = rank(es, k) as int;
    if has_key(es, k) {
        let j = choose|j: int| 0 <= j < es.len() && #[trigger] es[j].0 == k;
        lemma_lex_irreflexive(k);
        if j > r {
            lemma_lex_total(k, es[r].0);
            assert(lex_lt(es[r].0, es[j].0));
            lemma_lex_asymmetric(k, es[r].0);
        }
    }
}

/// A dictionary: entries kept in ascending byte-lexicographic key order, keys unique.
#[derive(Debug)]
pub struct BEDict {
    pub(crate) entries: Vec<(BEStr, BEncodedData)>,
}

/// A decoded value.
#[derive(Debug)]
pub enum BEncodedData {
    Empty,
    Num(i64),
    ByteStr(BEStr),
    List(Vec<BEncodedData>),
    Dict(BEDict),
}

impl BEncodedData {
    pub open spec fn view(&self) -> Value
        decreases self,
    {
        match self {
            BEncodedData::Empty => Value::Empty,
            BEncodedData::Num(n) => Value::Int(*n as int),
            BEncodedData::ByteStr(s) => Value::Str(s@),
            BEncodedData::List(l) => Value::List(views(l@)),
            BEncodedData::Dict(d) => Value::Dict(d.view_entries()),
        }
    }
}

/// The models of a sequence of decoded values.
pub open spec fn views(l: Seq<BEncodedData>) -> Seq<Value>
    decreases l,
{
    Seq::new(l.len(), |i: int| if 0 <= i < l.len() { l[i].view() } else { Value::Empty })
}

impl BEDict {
    /// The dictionary's keys ascend strictly.
    pub open spec fn wf(&self) -> bool {
        keys_sorted(self.view_entries())
    }

    pub fn new() -> (r: BEDict)
        ensures
            r.view_entries() == Seq::<(Seq<u8>, Value)>::empty(),
            r.wf(),
    {
        let r = BEDict { entries: Vec::new() };
        assert(r.view_entries() =~= Seq::<(Seq<u8>, Value)>::empty());
        r
    }

    pub fn len(&self) -> (r: usize)
        ensures
            r == self.view_entries().len(),
    {
        self.entries.len()
    }

    /// The entry at position `i` in ascending key order.
    pub fn entry(&self, i: usize) -> (r: (&BEStr, &BEncodedData))
        requires
            i < self.view_entries().len(),
        ensures
            (r.0@, r.1.view()) == self.view_entries()[i as int],
    {
        let e = &self.entries[i];
        (&e.0, &e.1)
    }

    /// The value stored under `key`.
    pub fn get(&self, key: &[u8]) -> (r: Option<&BEncodedData>)
        ensures
            match r {
                Some(v) => lookup(self.view_entries(), key@) == Some(v.view()),
                None => lookup(self.view_entries(), key@) == None::<Value>,
            },
    {
        let ghost es = self.view_entries();
        let mut i: usize = 0;
        assert(es.subrange(0, es.len() as int) =~= es);
        while i < self.entries.len()
            invariant
                i <= self.entries.len() == es.len(),
                es == self.view_entries(),
                lookup(es, key@) == lookup(es.subrange(i as int, es.len() as int), key@),
            decreases self.entries.len() - i,
        {
            let ghost t = es.subrange(i as int, es.len() as int);
            assert(t[0] == es[i as int]);
            if compare_bytes(self.entries[i].0.as_bytes(), key) == 0 {
                return Some(&self.entries[i].1);
            }
            assert(t.drop_first() =~= es.subrange(i + 1, es.len() as int));
            i = i + 1;
        }
        None
    }

    /// Puts `value` under `key` where the key is new, keeping the keys ascending.
    /// Returns false, and changes nothing, where the key is already present.
    pub fn insert(&mut self, key: BEStr, value: BEncodedData) -> (r: bool)
        requires
            old(self).wf(),
        ensures
            r == !has_key(old(self).view_entries(), key@),
            r ==> final(self).view_entries() == dict_insert(old(self).view_entries(), key@, value.view()),
            !r ==> final(self).view_entries() == old(self).view_entries(),
            final(self).wf(),
    {
        let ghost es = self.view_entries();
        let mut i: usize = 0;
        while i < self.entries.len() && compare_bytes(self.entries[i].0.as_bytes(), key.as_bytes()) == -1
            invariant
                i <= self.entries.len() == es.len(),
                es == self.view_entries(),
                forall|j: int| 0 <= j < i ==> lex_lt(#[trigger] es[j].0, key@),
            decreases self.entries.len() - i,
        {
            i = i + 1;
        }
        proof {
            lemma_rank_at(es, key@, i as int);
        }
        if i < self.entries.len() && compare_bytes(self.entries[i].0.as_bytes(), key.as_bytes()) == 0 {
            assert(es[i as int].0 == key@);
            return false;
        }
        proof {
            lemma_absent_unless_at_rank(es, key@);
            lemma_insert_sorted(es, key@, value.view());
        }
        let ghost kv = key@;
        let ghost vv = value.view();
        self.entries.insert(i, (key, value));
        assert(self.view_entries() =~= es.insert(i as int, (kv, vv)));
        true
    }

    pub(crate) proof fn lemma_view_entries(&self)
        ensures
            self.view_entries().len() == self.entries@.len(),
            forall|i: int| 0 <= i < self.entries@.len() ==> #[trigger] self.view_entries()[i] == (self.entries@[i].0@, self.entries@[i].1.view()),
    {
    }

    pub closed spec fn view_entries(&self) -> Seq<(Seq<u8>, Value)>
        decreases self,
    {
        Seq::new(self.entries@.len(), |i: int|
            if 0 <= i < self.entries@.len() {
                (self.entries@[i].0@, self.entries@[i].1.view())
            } else {
                (Seq::empty(), Value::Empty)
            })
    }
}

} // verus!
