//! The property mapping of one hot-plug event: string keys and values with
//! overwrite-on-insert semantics, the decoder for the kernel's NUL-separated
//! `KEY=VALUE` payload, and an encoder that writes the mapping back out with
//! its keys in ascending order.

use vstd::prelude::*;
use vstd::string::*;

use crate::strutil::find_char;
use crate::strutil::find_char_spec;
use crate::strutil::split_spec;
use crate::strutil::split_str;
use crate::strutil::str_eq;
use crate::strutil::substr_string;
use crate::strutil::lex_le;
use crate::strutil::str_lex_le;
use crate::strutil::lemma_find_char_in_range;
use crate::strutil::lemma_find_shift;
use crate::strutil::lemma_find_none_of_absent;
use crate::strutil::lemma_lex_le_total;
use crate::strutil::lemma_lex_le_trans;

verus! {

/// The keys of an entry sequence, in entry order.
pub open spec fn keys_of(es: Seq<(Seq<char>, Seq<char>)>) -> Seq<Seq<char>> {
    es.map_values(|p: (Seq<char>, Seq<char>)| p.0)
}

/// No two entries share a key.
pub open spec fn entries_unique(es: Seq<(Seq<char>, Seq<char>)>) -> bool {
    forall|i: int, j: int| 0 <= i < j < es.len() ==> (#[trigger] es[i]).0 != (#[trigger] es[j]).0
}

/// The value of the first entry with key `k`, if any.
pub open spec fn lookup_spec(es: Seq<(Seq<char>, Seq<char>)>, k: Seq<char>) -> Option<Seq<char>>
    decreases es.len(),
{
    if es.len() == 0 {
        None
    } else if es[0].0 == k {
        Some(es[0].1)
    } else {
        lookup_spec(es.skip(1), k)
    }
}

/// Replace the value of the entry with key `k`, or append a new entry.
pub open spec fn upsert_spec(
    es: Seq<(Seq<char>, Seq<char>)>,
    k: Seq<char>,
    v: Seq<char>,
) -> Seq<(Seq<char>, Seq<char>)>
    decreases es.len(),
{
    if es.len() == 0 {
        seq![(k, v)]
    } else if es[0].0 == k {
        seq![(k, v)] + es.skip(1)
    } else {
        seq![es[0]] + upsert_spec(es.skip(1), k, v)
    }
}

/// A string-to-string mapping with insertion-order entries and unique keys,
/// the shape in which one event's `KEY=VALUE` properties are held.
pub struct PropertyMap {
    entries: Vec<(String, String)>,
}

impl View for PropertyMap {
    type V = Seq<(Seq<char>, Seq<char>)>;

    closed spec fn view(&self) -> Seq<(Seq<char>, Seq<char>)> {
        self.entries.deep_view()
    }
}

impl PropertyMap {
    /// Keys are pairwise distinct; constructors establish this and `insert`
    /// preserves it.
    pub open spec fn wf(&self) -> bool {
        entries_unique(self@)
    }

    /// The empty mapping.
    pub fn new() -> (r: PropertyMap)
        ensures
            r@ == Seq::<(Seq<char>, Seq<char>)>::empty(),
            r.wf(),
    {
        let r = PropertyMap { entries: Vec::new() };
        proof {
            assert(r@ =~= Seq::<(Seq<char>, Seq<char>)>::empty());
        }
        r
    }

    /// How many entries the mapping holds.
    pub fn len(&self) -> (r: usize)
        ensures
            r == self@.len(),
    {
        self.entries.len()
    }

    /// The key of the entry at position `i`.
    pub fn key_at(&self, i: usize) -> (r: &String)
        requires
            i < self@.len(),
        ensures
            r@ == self@[i as int].0,
    {
        &self.entries[i].0
    }

    /// The value of the entry at position `i`.
    pub fn value_at(&self, i: usize) -> (r: &String)
        requires
            i < self@.len(),
        ensures
            r@ == self@[i as int].1,
    {
        &self.entries[i].1
    }

    /// The value stored under `k`, if any.
    pub fn get(&self, k: &str) -> (r: Option<&String>)
        ensures
            match r {
                Some(v) => lookup_spec(self@, k@) == Some(v@),
                None => lookup_spec(self@, k@).is_none(),
            },
    {
        let n = self.entries.len();
        let mut i: usize = 0;
        proof {
            assert(self@.skip(0) =~= self@);
        }
        while i < n
            invariant
                0 <= i <= n,
                n == self@.len(),
                lookup_spec(self@, k@) == lookup_spec(self@.skip(i as int), k@),
            decreases n - i,
        {
            proof {
                assert(self@.skip(i as int)[0] == self@[i as int]);
            }
            if str_eq(self.entries[i].0.as_str(), k) {
                return Some(&self.entries[i].1);
            }
            proof {
                assert(self@.skip(i as int).skip(1) =~= self@.skip(i + 1));
            }
            i = i + 1;
        }
        proof {
            assert(self@.skip(n as int).len() == 0);
        }
        None
    }

    /// Does the mapping hold an entry under `k`?
    pub fn contains_key(&self, k: &str) -> (r: bool)
        ensures
            r == lookup_spec(self@, k@).is_some(),
    {
        match self.get(k) {
            Some(_) => true,
            None => false,
        }
    }

    /// Store `v` under `k`, replacing any earlier value.
    pub fn insert(&mut self, k: String, v: String)
        requires
            old(self).wf(),
        ensures
            final(self)@ == upsert_spec(old(self)@, k@, v@),
            final(self).wf(),
    {
        let n = self.entries.len();
        let mut i: usize = 0;
        while i < n
            invariant
                0 <= i <= n,
                n == self@.len(),
                self@ == old(self)@,
                old(self).wf(),
                forall|j: int| 0 <= j < i ==> (#[trigger] self@[j]).0 != k@,
            decreases n - i,
        {
            if str_eq(self.entries[i].0.as_str(), k.as_str()) {
                self.entries[i].1 = v;
                proof {
                    lemma_upsert_at(old(self)@, k@, v@, i as int);
                    assert(self@ =~= old(self)@.update(i as int, (k@, v@)));
                    assert(self@[i as int].0 == k@);
                    lemma_unique_update_same_key(old(self)@, i as int, k@, v@);
                }
                return ;
            }
            i = i + 1;
        }
        self.entries.push((k, v));
        proof {
            lemma_upsert_absent(old(self)@, k@, v@);
            assert(self@ =~= old(self)@.push((k@, v@)));
        }
    }
}

/// When key `k` is absent, `upsert_spec` appends.
pub proof fn lemma_upsert_absent(es: Seq<(Seq<char>, Seq<char>)>, k: Seq<char>, v: Seq<char>)
    requires
        forall|j: int| 0 <= j < es.len() ==> (#[trigger] es[j]).0 != k,
    ensures
        upsert_spec(es, k, v) == es.push((k, v)),
    decreases es.len(),
{
    if es.len() == 0 {
        assert(upsert_spec(es, k, v) =~= es.push((k, v)));
    } else {
        assert(es.skip(1) =~= es.subrange(1, es.len() as int));
        lemma_upsert_absent(es.skip(1), k, v);
        assert(seq![es[0]] + es.skip(1).push((k, v)) =~= es.push((k, v)));
    }
}

/// When the first entry with key `k` sits at `i`, `upsert_spec` updates it
/// in place.
proof fn lemma_upsert_at(es: Seq<(Seq<char>, Seq<char>)>, k: Seq<char>, v: Seq<char>, i: int)
    requires
        0 <= i < es.len(),
        es[i].0 == k,
        forall|j: int| 0 <= j < i ==> (#[trigger] es[j]).0 != k,
    ensures
        upsert_spec(es, k, v) == es.update(i, (k, v)),
    decreases i,
{
    if i == 0 {
        assert(upsert_spec(es, k, v) == seq![(k, v)] + es.skip(1));
        assert(seq![(k, v)] + es.skip(1) =~= es.update(0, (k, v)));
    } else {
        assert(es.skip(1)[i - 1].0 == k);
        assert(forall|j: int| 0 <= j < i - 1 ==> (#[trigger] es.skip(1)[j]).0 != k);
        lemma_upsert_at(es.skip(1), k, v, i - 1);
        assert(seq![es[0]] + es.skip(1).update(i - 1, (k, v)) =~= es.update(i, (k, v)));
    }
}

/// Updating an entry without changing its key preserves key uniqueness.
proof fn lemma_unique_update_same_key(
    es: Seq<(Seq<char>, Seq<char>)>,
    i: int,
    k: Seq<char>,
    v: Seq<char>,
)
    requires
        entries_unique(es),
        0 <= i < es.len(),
        es[i].0 == k,
    ensures
        entries_unique(es.update(i, (k, v))),
{
    let es2 = es.update(i, (k, v));
    assert forall|a: int, b: int| 0 <= a < b < es2.len() implies (#[trigger] es2[a]).0 != (
    #[trigger] es2[b]).0 by {
        assert(es2[a].0 == es[a].0);
        assert(es2[b].0 == es[b].0);
    }
}

/// The key/value split of one payload field: the text before the first `'='`
/// and the text after it; fields without `'='` carry nothing.
pub open spec fn field_kv(f: Seq<char>) -> Option<(Seq<char>, Seq<char>)> {
    match find_char_spec(f, '=', 0) {
        Option::None => Option::None,
        Option::Some(i) => Option::Some((f.take(i), f.skip(i + 1))),
    }
}

/// Fold one field into the mapping decoded so far.
pub open spec fn decode_step(
    es: Seq<(Seq<char>, Seq<char>)>,
    f: Seq<char>,
) -> Seq<(Seq<char>, Seq<char>)> {
    match field_kv(f) {
        Option::None => es,
        Option::Some(kv) => upsert_spec(es, kv.0, kv.1),
    }
}

/// The mapping decoded from a sequence of payload fields.
pub open spec fn decode_fields(fields: Seq<Seq<char>>) -> Seq<(Seq<char>, Seq<char>)>
    decreases fields.len(),
{
    if fields.len() == 0 {
        Seq::empty()
    } else {
        decode_step(decode_fields(fields.drop_last()), fields.last())
    }
}

/// The mapping decoded from a NUL-separated `KEY=VALUE` payload.
pub open spec fn decode_spec(s: Seq<char>) -> Seq<(Seq<char>, Seq<char>)> {
    decode_fields(split_spec(s, '\0'))
}

/// Decode a NUL-separated `KEY=VALUE` payload into a property mapping.
/// Fields without `'='` — the kernel's leading summary line among them —
/// are ignored; a repeated key keeps the last value.
pub fn decode_event_payload(msg: &str) -> (pm: PropertyMap)
    ensures
        pm.wf(),
        pm@ == decode_spec(msg@),
{
    let fields = split_str(msg, '\0');
    let mut pm = PropertyMap::new();
    let n = fields.len();
    let mut i: usize = 0;
    proof {
        assert(fields.deep_view().take(0) =~= Seq::<Seq<char>>::empty());
    }
    while i < n
        invariant
            0 <= i <= n,
            n == fields.len(),
            fields.deep_view() == split_spec(msg@, '\0'),
            fields.deep_view().len() == n,
            pm.wf(),
            pm@ == decode_fields(fields.deep_view().take(i as int)),
        decreases n - i,
    {
        let f: &String = &fields[i];
        proof {
            assert(f@ == fields.deep_view()[i as int]);
            assert(fields.deep_view().take(i + 1).drop_last() =~= fields.deep_view().take(
                i as int,
            ));
            assert(fields.deep_view().take(i + 1).last() == f@);
        }
        let flen = f.as_str().unicode_len();
        match find_char(f.as_str(), '=', 0) {
            Some(p) => {
                let k = substr_string(f.as_str(), 0, p);
                let v = substr_string(f.as_str(), p + 1, flen);
                proof {
                    assert(k@ =~= f@.take(p as int));
                    assert(v@ =~= f@.skip(p + 1));
                }
                pm.insert(k, v);
            },
            None => {},
        }
        i = i + 1;
    }
    proof {
        assert(fields.deep_view().take(n as int) =~= fields.deep_view());
    }
    pm
}

/// Insert entry `p` into `es`, which is ascending by key, keeping it
/// ascending; `p` goes after any entry whose key is not above `p`'s.
pub open spec fn insert_lex(
    p: (Seq<char>, Seq<char>),
    es: Seq<(Seq<char>, Seq<char>)>,
) -> Seq<(Seq<char>, Seq<char>)>
    decreases es.len(),
{
    if es.len() == 0 {
        seq![p]
    } else if lex_le(es.last().0, p.0) {
        es.push(p)
    } else {
        insert_lex(p, es.drop_last()).push(es.last())
    }
}

/// The entries of `es` rearranged into ascending key order.
pub open spec fn sort_by_key_spec(es: Seq<(Seq<char>, Seq<char>)>) -> Seq<(Seq<char>, Seq<char>)>
    decreases es.len(),
{
    if es.len() == 0 {
        Seq::empty()
    } else {
        insert_lex(es.last(), sort_by_key_spec(es.drop_last()))
    }
}

/// One payload field for an entry: `KEY=VALUE`.
pub open spec fn kv_field(p: (Seq<char>, Seq<char>)) -> Seq<char> {
    p.0 + seq!['='] + p.1
}

/// The payload text for an entry sequence: fields joined by NUL bytes.
pub open spec fn encode_fields(es: Seq<(Seq<char>, Seq<char>)>) -> Seq<char>
    decreases es.len(),
{
    if es.len() == 0 {
        Seq::empty()
    } else if es.len() == 1 {
        kv_field(es[0])
    } else {
        encode_fields(es.drop_last()) + seq!['\0'] + kv_field(es.last())
    }
}

/// The payload text for a mapping: its entries in ascending key order,
/// joined by NUL bytes.
pub open spec fn encode_spec(es: Seq<(Seq<char>, Seq<char>)>) -> Seq<char> {
    encode_fields(sort_by_key_spec(es))
}

/// `c` does not occur in `s`.
pub open spec fn char_free(s: Seq<char>, c: char) -> bool {
    forall|i: int| 0 <= i < s.len() ==> #[trigger] s[i] != c
}

/// An entry sequence that a payload can carry faithfully: keys without NUL
/// or `'='`, values without NUL.
pub open spec fn payload_wf(es: Seq<(Seq<char>, Seq<char>)>) -> bool {
    forall|i: int| 0 <= i < es.len() ==> char_free((#[trigger] es[i]).0, '\0') && char_free(
        es[i].0,
        '=',
    ) && char_free(es[i].1, '\0')
}

/// Encode the mapping as a NUL-separated `KEY=VALUE` payload with the keys
/// in ascending order.
pub fn encode_event_payload(pm: &PropertyMap) -> (r: String)
    ensures
        r@ == encode_spec(pm@),
{
    let n = pm.len();
    let mut sorted: Vec<(String, String)> = Vec::new();
    let mut i: usize = 0;
    proof {
        assert(pm@.take(0) =~= Seq::<(Seq<char>, Seq<char>)>::empty());
        assert(sorted.deep_view() =~= Seq::<(Seq<char>, Seq<char>)>::empty());
    }
    while i < n
        invariant
            0 <= i <= n,
            n == pm@.len(),
            sorted.deep_view() == sort_by_key_spec(pm@.take(i as int)),
            sorted.deep_view().len() == sorted.len(),
        decreases n - i,
    {
        let k = pm.key_at(i).clone();
        let v = pm.value_at(i).clone();
        let mut j: usize = sorted.len();
        while j > 0 && !str_lex_le(sorted[j - 1].0.as_str(), k.as_str())
            invariant
                0 <= j <= sorted.len(),
                sorted.deep_view().len() == sorted.len(),
                forall|m: int|
                    j <= m < sorted.len() ==> !lex_le(
                        (#[trigger] sorted.deep_view()[m]).0,
                        k@,
                    ),
            decreases j,
        {
            j = j - 1;
        }
        proof {
            lemma_insert_lex_pos((k@, v@), sorted.deep_view(), j as int);
            assert(pm@.take(i + 1).drop_last() =~= pm@.take(i as int));
            assert(pm@.take(i + 1).last() == pm@[i as int]);
        }
        let ghost before = sorted.deep_view();
        sorted.insert(j, (k, v));
        proof {
            assert(sorted.deep_view() =~= before.take(j as int) + seq![(k@, v@)] + before.skip(
                j as int,
            ));
        }
        i = i + 1;
    }
    proof {
        assert(pm@.take(n as int) =~= pm@);
    }
    let mut out = String::new();
    let m = sorted.len();
    let mut t: usize = 0;
    proof {
        assert(sorted.deep_view().take(0) =~= Seq::<(Seq<char>, Seq<char>)>::empty());
        reveal_strlit("=");
        reveal_strlit("\0");
    }
    while t < m
        invariant
            0 <= t <= m,
            m == sorted.len(),
            sorted.deep_view().len() == m,
            out@ == encode_fields(sorted.deep_view().take(t as int)),
        decreases m - t,
    {
        proof {
            reveal_strlit("=");
            reveal_strlit("\0");
        }
        if t > 0 {
            out.append("\0");
        }
        out.append(sorted[t].0.as_str());
        out.append("=");
        out.append(sorted[t].1.as_str());
        proof {
            let sv = sorted.deep_view();
            assert(sv.take(t + 1).drop_last() =~= sv.take(t as int));
            assert(sv.take(t + 1).last() == sv[t as int]);
            if t == 0 {
                assert(out@ =~= kv_field(sv[0]));
                assert(sv.take(1)[0] == sv[0]);
            } else {
                assert(out@ =~= encode_fields(sv.take(t as int)) + seq!['\0'] + kv_field(
                    sv[t as int],
                ));
            }
        }
        t = t + 1;
    }
    proof {
        assert(sorted.deep_view().take(m as int) =~= sorted.deep_view());
    }
    out
}

/// Where the scan in `encode_event_payload` stops is where `insert_lex`
/// places the new entry.
proof fn lemma_insert_lex_pos(
    p: (Seq<char>, Seq<char>),
    es: Seq<(Seq<char>, Seq<char>)>,
    j: int,
)
    requires
        0 <= j <= es.len(),
        forall|m: int| j <= m < es.len() ==> !lex_le((#[trigger] es[m]).0, p.0),
        j > 0 ==> lex_le(es[j - 1].0, p.0),
    ensures
        insert_lex(p, es) == es.take(j) + seq![p] + es.skip(j),
    decreases es.len(),
{
    if es.len() == 0 {
        assert(insert_lex(p, es) =~= es.take(j) + seq![p] + es.skip(j));
    } else if lex_le(es.last().0, p.0) {
        assert(j == es.len());
        assert(es.push(p) =~= es.take(j) + seq![p] + es.skip(j));
    } else {
        assert(j < es.len());
        lemma_insert_lex_pos(p, es.drop_last(), j);
        assert((es.drop_last().take(j) + seq![p] + es.drop_last().skip(j)).push(es.last()) =~= (
        es.take(j) + seq![p] + es.skip(j)));
    }
}

/// Membership in a pushed sequence.
proof fn lemma_push_contains<A>(s: Seq<A>, a: A, x: A)
    ensures
        s.push(a).contains(x) <==> (s.contains(x) || x == a),
{
    if s.push(a).contains(x) {
        let i = choose|i: int| 0 <= i < s.push(a).len() && s.push(a)[i] == x;
        if i < s.len() {
            assert(s[i] == x);
        }
    }
    if s.contains(x) {
        let i = choose|i: int| 0 <= i < s.len() && s[i] == x;
        assert(s.push(a)[i] == x);
    }
    if x == a {
        assert(s.push(a)[s.len() as int] == x);
    }
}

/// `insert_lex` holds exactly the given entries plus the new one.
proof fn lemma_insert_lex_contains(p: (Seq<char>, Seq<char>), es: Seq<(Seq<char>, Seq<char>)>)
    ensures
        forall|x: (Seq<char>, Seq<char>)|
            #[trigger] insert_lex(p, es).contains(x) <==> (es.contains(x) || x == p),
        insert_lex(p, es).len() == es.len() + 1,
    decreases es.len(),
{
    if es.len() == 0 {
        assert forall|x: (Seq<char>, Seq<char>)|
            #[trigger] insert_lex(p, es).contains(x) <==> (es.contains(x) || x == p) by {
            lemma_push_contains(Seq::<(Seq<char>, Seq<char>)>::empty(), p, x);
            assert(insert_lex(p, es) =~= Seq::<(Seq<char>, Seq<char>)>::empty().push(p));
        }
    } else if lex_le(es.last().0, p.0) {
        assert forall|x: (Seq<char>, Seq<char>)|
            #[trigger] insert_lex(p, es).contains(x) <==> (es.contains(x) || x == p) by {
            lemma_push_contains(es, p, x);
        }
    } else {
        lemma_insert_lex_contains(p, es.drop_last());
        assert forall|x: (Seq<char>, Seq<char>)|
            #[trigger] insert_lex(p, es).contains(x) <==> (es.contains(x) || x == p) by {
            lemma_push_contains(insert_lex(p, es.drop_last()), es.last(), x);
            lemma_push_contains(es.drop_last(), es.last(), x);
            assert(es =~= es.drop_last().push(es.last()));
        }
    }
}

/// The sorted entry sequence holds exactly the original entries.
proof fn lemma_sort_contains(es: Seq<(Seq<char>, Seq<char>)>)
    ensures
        forall|x: (Seq<char>, Seq<char>)|
            #[trigger] sort_by_key_spec(es).contains(x) <==> es.contains(x),
        sort_by_key_spec(es).len() == es.len(),
    decreases es.len(),
{
    if es.len() > 0 {
        lemma_sort_contains(es.drop_last());
        lemma_insert_lex_contains(es.last(), sort_by_key_spec(es.drop_last()));
        assert forall|x: (Seq<char>, Seq<char>)|
            #[trigger] sort_by_key_spec(es).contains(x) <==> es.contains(x) by {
            lemma_push_contains(es.drop_last(), es.last(), x);
            assert(es =~= es.drop_last().push(es.last()));
        }
    }
}

/// Inserting an entry whose key is fresh preserves key uniqueness.
proof fn lemma_insert_lex_unique(p: (Seq<char>, Seq<char>), es: Seq<(Seq<char>, Seq<char>)>)
    requires
        entries_unique(es),
        forall|i: int| 0 <= i < es.len() ==> (#[trigger] es[i]).0 != p.0,
    ensures
        entries_unique(insert_lex(p, es)),
    decreases es.len(),
{
    if es.len() == 0 {
    } else if lex_le(es.last().0, p.0) {
        let r = es.push(p);
        assert forall|i: int, j: int| 0 <= i < j < r.len() implies (#[trigger] r[i]).0 != (
        #[trigger] r[j]).0 by {
            if j < es.len() {
                assert(r[i] == es[i] && r[j] == es[j]);
            } else {
                assert(r[j] == p && r[i] == es[i]);
            }
        }
    } else {
        let dl = es.drop_last();
        assert(forall|i: int| 0 <= i < dl.len() ==> (#[trigger] dl[i]).0 != p.0) by {
            assert(forall|i: int| 0 <= i < dl.len() ==> dl[i] == es[i]);
        }
        lemma_insert_lex_unique(p, dl);
        lemma_insert_lex_contains(p, dl);
        let r0 = insert_lex(p, dl);
        let r = r0.push(es.last());
        assert forall|i: int, j: int| 0 <= i < j < r.len() implies (#[trigger] r[i]).0 != (
        #[trigger] r[j]).0 by {
            if j < r0.len() {
                assert(r[i] == r0[i] && r[j] == r0[j]);
            } else {
                assert(r[j] == es.last());
                assert(r[i] == r0[i]);
                assert(r0.contains(r0[i]));
                if dl.contains(r0[i]) {
                    let m = choose|m: int| 0 <= m < dl.len() && dl[m] == r0[i];
                    assert(es[m] == dl[m]);
                    assert(es.last() == es[es.len() - 1]);
                } else {
                    assert(r0[i] == p);
                    assert(es[es.len() - 1].0 != p.0);
                }
            }
        }
    }
}

/// Sorting preserves key uniqueness.
pub proof fn lemma_sort_unique(es: Seq<(Seq<char>, Seq<char>)>)
    requires
        entries_unique(es),
    ensures
        entries_unique(sort_by_key_spec(es)),
    decreases es.len(),
{
    if es.len() > 0 {
        let dl = es.drop_last();
        assert(entries_unique(dl)) by {
            assert(forall|i: int| 0 <= i < dl.len() ==> dl[i] == es[i]);
        }
        lemma_sort_unique(dl);
        lemma_sort_contains(dl);
        let sdl = sort_by_key_spec(dl);
        assert forall|i: int| 0 <= i < sdl.len() implies (#[trigger] sdl[i]).0 != es.last().0 by {
            assert(sdl.contains(sdl[i]));
            let m = choose|m: int| 0 <= m < dl.len() && dl[m] == sdl[i];
            assert(es[m] == dl[m]);
        }
        lemma_insert_lex_unique(es.last(), sdl);
    }
}

/// Ascending key order over a whole entry sequence.
pub open spec fn sorted_by_key(es: Seq<(Seq<char>, Seq<char>)>) -> bool {
    forall|i: int, j: int|
        0 <= i < j < es.len() ==> lex_le((#[trigger] es[i]).0, (#[trigger] es[j]).0)
}

/// `insert_lex` keeps the sequence ascending by key.
proof fn lemma_insert_lex_sorted(p: (Seq<char>, Seq<char>), es: Seq<(Seq<char>, Seq<char>)>)
    requires
        sorted_by_key(es),
    ensures
        sorted_by_key(insert_lex(p, es)),
    decreases es.len(),
{
    if es.len() == 0 {
    } else if lex_le(es.last().0, p.0) {
        let r = es.push(p);
        assert forall|i: int, j: int| 0 <= i < j < r.len() implies lex_le(
            (#[trigger] r[i]).0,
            (#[trigger] r[j]).0,
        ) by {
            if j < es.len() {
                assert(r[i] == es[i] && r[j] == es[j]);
            } else {
                assert(r[j] == p && r[i] == es[i]);
                if i < es.len() - 1 {
                    assert(lex_le(es[i].0, es.last().0));
                    lemma_lex_le_trans(es[i].0, es.last().0, p.0);
                }
            }
        }
    } else {
        let dl = es.drop_last();
        assert(sorted_by_key(dl)) by {
            assert(forall|i: int| 0 <= i < dl.len() ==> dl[i] == es[i]);
        }
        lemma_insert_lex_sorted(p, dl);
        lemma_insert_lex_contains(p, dl);
        lemma_lex_le_total(es.last().0, p.0);
        let r0 = insert_lex(p, dl);
        let r = r0.push(es.last());
        assert forall|i: int, j: int| 0 <= i < j < r.len() implies lex_le(
            (#[trigger] r[i]).0,
            (#[trigger] r[j]).0,
        ) by {
            if j < r0.len() {
                assert(r[i] == r0[i] && r[j] == r0[j]);
            } else {
                assert(r[j] == es.last());
                assert(r[i] == r0[i]);
                assert(r0.contains(r0[i]));
                if dl.contains(r0[i]) {
                    let m = choose|m: int| 0 <= m < dl.len() && dl[m] == r0[i];
                    assert(dl[m] == es[m]);
                    assert(lex_le(es[m].0, es[es.len() - 1].0));
                } else {
                    assert(r0[i] == p);
                }
            }
        }
    }
}

/// The sorted entry sequence is ascending by key.
pub proof fn lemma_sort_sorted(es: Seq<(Seq<char>, Seq<char>)>)
    ensures
        sorted_by_key(sort_by_key_spec(es)),
    decreases es.len(),
{
    if es.len() > 0 {
        lemma_sort_sorted(es.drop_last());
        lemma_insert_lex_sorted(es.last(), sort_by_key_spec(es.drop_last()));
    }
}

/// Searching a concatenation: a hit in the first part wins; otherwise the
/// search continues in the second part.
proof fn lemma_find_concat(a: Seq<char>, t: Seq<char>, c: char, from: int)
    requires
        0 <= from <= a.len(),
    ensures
        find_char_spec(a + t, c, from) == (match find_char_spec(a, c, from) {
            Option::Some(i) => Option::Some(i),
            Option::None => match find_char_spec(t, c, 0) {
                Option::Some(j) => Option::Some(a.len() + j),
                Option::None => Option::<int>::None,
            },
        }),
    decreases a.len() - from,
{
    let s = a + t;
    if from == a.len() {
        lemma_find_shift(s, c, a.len() as int, from);
        assert(s.skip(a.len() as int) =~= t);
    } else {
        assert(s[from] == a[from]);
        if a[from] != c {
            lemma_find_concat(a, t, c, from + 1);
        }
    }
}

/// Splitting distributes over a separator between two texts.
proof fn lemma_split_concat(a: Seq<char>, b: Seq<char>, sep: char)
    ensures
        split_spec(a + seq![sep] + b, sep) == split_spec(a, sep) + split_spec(b, sep),
    decreases a.len(),
{
    let s = a + seq![sep] + b;
    let t = seq![sep] + b;
    assert(s =~= a + t);
    lemma_find_concat(a, t, sep, 0);
    assert(t[0] == sep);
    match find_char_spec(a, sep, 0) {
        Option::Some(i) => {
            lemma_find_char_in_range(a, sep, 0);
            assert(find_char_spec(s, sep, 0) == Option::Some(i));
            assert(s.take(i) =~= a.take(i));
            assert(s.skip(i + 1) =~= a.skip(i + 1) + seq![sep] + b);
            lemma_split_concat(a.skip(i + 1), b, sep);
            assert(seq![s.take(i)] + (split_spec(a.skip(i + 1), sep) + split_spec(b, sep)) =~= (
            seq![a.take(i)] + split_spec(a.skip(i + 1), sep)) + split_spec(b, sep));
        },
        Option::None => {
            assert(find_char_spec(s, sep, 0) == Option::Some(a.len() as int));
            assert(s.take(a.len() as int) =~= a);
            assert(s.skip(a.len() as int + 1) =~= b);
            assert(split_spec(s, sep) == seq![a] + split_spec(b, sep));
            assert(split_spec(a, sep) == seq![a]);
        },
    }
}

/// A text without the separator splits into itself alone.
proof fn lemma_split_single(s: Seq<char>, sep: char)
    requires
        char_free(s, sep),
    ensures
        split_spec(s, sep) == seq![s],
{
    lemma_find_none_of_absent(s, sep, 0);
}

/// The payload field of a well-formed entry decodes back to that entry.
proof fn lemma_field_kv_of_kv(p: (Seq<char>, Seq<char>))
    requires
        char_free(p.0, '='),
    ensures
        field_kv(kv_field(p)) == Option::Some(p),
{
    let kv = kv_field(p);
    let t = seq!['='] + p.1;
    assert(kv =~= p.0 + t);
    lemma_find_none_of_absent(p.0, '=', 0);
    lemma_find_concat(p.0, t, '=', 0);
    assert(t[0] == '=');
    assert(find_char_spec(kv, '=', 0) == Option::Some(p.0.len() as int));
    assert(kv.take(p.0.len() as int) =~= p.0);
    assert(kv.skip(p.0.len() as int + 1) =~= p.1);
}

/// `decode_fields` of one more field folds that field in.
proof fn lemma_decode_fields_push(fields: Seq<Seq<char>>, f: Seq<char>)
    ensures
        decode_fields(fields.push(f)) == decode_step(decode_fields(fields), f),
{
    assert(fields.push(f).drop_last() =~= fields);
    assert(fields.push(f).last() == f);
}

/// A well-formed entry sequence survives encoding and decoding unchanged.
proof fn lemma_decode_encode_fields(ses: Seq<(Seq<char>, Seq<char>)>)
    requires
        entries_unique(ses),
        payload_wf(ses),
    ensures
        decode_spec(encode_fields(ses)) == ses,
    decreases ses.len(),
{
    if ses.len() == 0 {
        let e = Seq::<char>::empty();
        lemma_find_none_of_absent(e, '\0', 0);
        assert(split_spec(e, '\0') == seq![e]);
        lemma_decode_fields_push(Seq::<Seq<char>>::empty(), e);
        assert(seq![e].drop_last() =~= Seq::<Seq<char>>::empty());
        lemma_find_none_of_absent(e, '=', 0);
        assert(decode_spec(encode_fields(ses)) =~= ses);
    } else if ses.len() == 1 {
        let p = ses[0];
        let kv = kv_field(p);
        assert(char_free(kv, '\0')) by {
            assert(forall|i: int| 0 <= i < p.0.len() ==> kv[i] == p.0[i]);
            assert(kv[p.0.len() as int] == '=');
            assert(forall|i: int|
                p.0.len() + 1 <= i < kv.len() ==> kv[i] == p.1[i - p.0.len() - 1]);
        }
        lemma_split_single(kv, '\0');
        assert(seq![kv].drop_last() =~= Seq::<Seq<char>>::empty());
        lemma_field_kv_of_kv(p);
        assert(seq![kv].last() == kv);
        assert(decode_fields(seq![kv].drop_last()) == decode_fields(Seq::<Seq<char>>::empty()));
        assert(decode_fields(seq![kv]) == decode_step(Seq::<(Seq<char>, Seq<char>)>::empty(), kv));
        assert(decode_step(Seq::<(Seq<char>, Seq<char>)>::empty(), kv) == upsert_spec(
            Seq::<(Seq<char>, Seq<char>)>::empty(),
            p.0,
            p.1,
        ));
        assert(upsert_spec(Seq::<(Seq<char>, Seq<char>)>::empty(), p.0, p.1) =~= ses);
    } else {
        let dl = ses.drop_last();
        let last = ses.last();
        assert(entries_unique(dl) && payload_wf(dl)) by {
            assert(forall|i: int| 0 <= i < dl.len() ==> dl[i] == ses[i]);
        }
        lemma_decode_encode_fields(dl);
        let kv = kv_field(last);
        assert(char_free(kv, '\0')) by {
            assert(forall|i: int| 0 <= i < last.0.len() ==> kv[i] == last.0[i]);
            assert(kv[last.0.len() as int] == '=');
            assert(forall|i: int|
                last.0.len() + 1 <= i < kv.len() ==> kv[i] == last.1[i - last.0.len() - 1]);
        }
        lemma_split_concat(encode_fields(dl), kv, '\0');
        lemma_split_single(kv, '\0');
        let fields = split_spec(encode_fields(dl), '\0');
        assert(fields + seq![kv] =~= fields.push(kv));
        lemma_decode_fields_push(fields, kv);
        lemma_field_kv_of_kv(last);
        assert(decode_step(dl, kv) == upsert_spec(dl, last.0, last.1));
        assert(forall|j: int| 0 <= j < dl.len() ==> (#[trigger] dl[j]).0 != last.0) by {
            assert(forall|j: int| 0 <= j < dl.len() ==> dl[j] == ses[j]);
            assert(last == ses[ses.len() - 1]);
        }
        lemma_upsert_absent(dl, last.0, last.1);
        assert(encode_fields(ses) == encode_fields(dl) + seq!['\0'] + kv);
        assert(split_spec(encode_fields(ses), '\0') == fields + seq![kv]);
        assert(decode_fields(fields) == dl);
        assert(decode_fields(fields.push(kv)) == decode_step(dl, kv));
        assert(decode_spec(encode_fields(ses)) == upsert_spec(dl, last.0, last.1));
        assert(dl.push(last) =~= ses);
    }
}

/// Entry membership transfers pointwise properties through sorting.
proof fn lemma_sort_payload_wf(es: Seq<(Seq<char>, Seq<char>)>)
    requires
        payload_wf(es),
    ensures
        payload_wf(sort_by_key_spec(es)),
{
    lemma_sort_contains(es);
    let ses = sort_by_key_spec(es);
    assert forall|i: int|
        0 <= i < ses.len() implies char_free((#[trigger] ses[i]).0, '\0') && char_free(
        ses[i].0,
        '=',
    ) && char_free(ses[i].1, '\0') by {
        assert(ses.contains(ses[i]));
        let m = choose|m: int| 0 <= m < es.len() && es[m] == ses[i];
    }
}

/// Keys of an entry sequence contain `k` exactly when some entry has key `k`.
proof fn lemma_keys_contains(es: Seq<(Seq<char>, Seq<char>)>, k: Seq<char>)
    ensures
        keys_of(es).contains(k) <==> exists|i: int| 0 <= i < es.len() && (#[trigger] es[i]).0 == k,
{
    if keys_of(es).contains(k) {
        let i = choose|i: int| 0 <= i < keys_of(es).len() && keys_of(es)[i] == k;
        assert(es[i].0 == k);
    }
    if exists|i: int| 0 <= i < es.len() && (#[trigger] es[i]).0 == k {
        let i = choose|i: int| 0 <= i < es.len() && (#[trigger] es[i]).0 == k;
        assert(keys_of(es)[i] == k);
    }
}

/// Law: decoding an encoded mapping yields exactly the mapping's entries in
/// ascending key order.  The mapping must be faithfully encodable: unique
/// keys free of NUL and `'='`, values free of NUL.
pub proof fn lemma_payload_round_trip(es: Seq<(Seq<char>, Seq<char>)>)
    requires
        entries_unique(es),
        payload_wf(es),
    ensures
        decode_spec(encode_spec(es)) == sort_by_key_spec(es),
        sorted_by_key(sort_by_key_spec(es)),
    decreases es.len(),
{
    lemma_sort_unique(es);
    lemma_sort_payload_wf(es);
    lemma_decode_encode_fields(sort_by_key_spec(es));
    lemma_sort_sorted(es);
}

/// Law: one decode-encode round trip preserves the unordered key set.
pub proof fn lemma_round_trip_key_set(es: Seq<(Seq<char>, Seq<char>)>)
    requires
        entries_unique(es),
        payload_wf(es),
    ensures
        keys_of(decode_spec(encode_spec(es))).to_set() == keys_of(es).to_set(),
{
    lemma_payload_round_trip(es);
    lemma_sort_contains(es);
    let ses = sort_by_key_spec(es);
    assert forall|k: Seq<char>|
        keys_of(ses).to_set().contains(k) <==> keys_of(es).to_set().contains(k) by {
        lemma_keys_contains(ses, k);
        lemma_keys_contains(es, k);
        assert(keys_of(ses).to_set().contains(k) == keys_of(ses).contains(k));
        assert(keys_of(es).to_set().contains(k) == keys_of(es).contains(k));
        if keys_of(ses).contains(k) {
            let i = choose|i: int| 0 <= i < ses.len() && (#[trigger] ses[i]).0 == k;
            assert(ses.contains(ses[i]));
            assert(es.contains(ses[i]));
            let m = choose|m: int| 0 <= m < es.len() && es[m] == ses[i];
            assert(es[m].0 == k);
        }
        if keys_of(es).contains(k) {
            let i = choose|i: int| 0 <= i < es.len() && (#[trigger] es[i]).0 == k;
            assert(es.contains(es[i]));
            assert(ses.contains(es[i]));
            let m = choose|m: int| 0 <= m < ses.len() && ses[m] == es[i];
            assert(ses[m].0 == k);
        }
    }
    assert(keys_of(ses).to_set() =~= keys_of(es).to_set());
}

} // verus!
