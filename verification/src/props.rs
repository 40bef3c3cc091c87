//! Namespace properties: an open property bag mapping string keys to a
//! small closed set of value shapes, with the set/diff semantics of the
//! catalog protocol (apply every removal first, then every update, so an
//! update always wins over a removal of the same key in one call).

use vstd::prelude::*;
use vstd::string::StrSliceExecFns;
use vstd::utf8::{decode_utf8, encode_utf8, valid_utf8};

use crate::codec::{
    dec_digits, dec_of_u64, escape_bytes, escape_vec, is_digit, is_digit_seq, join_bytes, join_vec,
    lemma_dec_digits_val, lemma_escape_sep_free, lemma_split_join, lemma_split_prefix,
    lemma_split_sep_free, lemma_unescape_escape, parse_dec_u64, parse_u64, sep_free, split_bytes,
    split_vec, str_eq, str_to_bytes, string_from_utf8, unescape_bytes, unescape_vec, REC_SEP,
    UNIT_SEP,
};

verus! {

/// A property value: a string, an unsigned number, a boolean, or null.
#[derive(Debug, PartialEq, Eq)]
pub enum PropValue {
    Null,
    Bool(bool),
    Int(u64),
    Str(String),
}

/// The mathematical shape of a [`PropValue`].
pub ghost enum PropValueView {
    Null,
    Bool(bool),
    Int(u64),
    Str(Seq<char>),
}

impl View for PropValue {
    type V = PropValueView;

    open spec fn view(&self) -> PropValueView {
        match self {
            PropValue::Null => PropValueView::Null,
            PropValue::Bool(b) => PropValueView::Bool(*b),
            PropValue::Int(n) => PropValueView::Int(*n),
            PropValue::Str(s) => PropValueView::Str(s@),
        }
    }
}

impl PropValue {
    /// A copy of this value.
    #[verifier::loop_isolation(false)]
    pub fn duplicate(&self) -> (r: PropValue)
        ensures
            r@ == self@,
    {
        match self {
            PropValue::Null => PropValue::Null,
            PropValue::Bool(b) => PropValue::Bool(*b),
            PropValue::Int(n) => PropValue::Int(*n),
            PropValue::Str(s) => PropValue::Str(s.clone()),
        }
    }
}

/// The map denoted by a sequence of key/value entries: a later entry for
/// the same key wins.
pub open spec fn entries_map(s: Seq<(Seq<char>, PropValueView)>) -> Map<Seq<char>, PropValueView>
    decreases s.len(),
{
    if s.len() == 0 {
        Map::empty()
    } else {
        entries_map(s.drop_last()).insert(s.last().0, s.last().1)
    }
}

pub open spec fn entry_keys_distinct(s: Seq<(Seq<char>, PropValueView)>) -> bool {
    forall|i: int, j: int| 0 <= i < j < s.len() ==> (#[trigger] s[i]).0 != (#[trigger] s[j]).0
}

pub proof fn lemma_entries_map_contains(s: Seq<(Seq<char>, PropValueView)>, k: Seq<char>)
    ensures
        entries_map(s).contains_key(k) <==> exists|i: int| 0 <= i < s.len() && (#[trigger] s[i]).0
            == k,
    decreases s.len(),
{
    if s.len() > 0 {
        lemma_entries_map_contains(s.drop_last(), k);
        if entries_map(s).contains_key(k) {
            if s.last().0 == k {
                assert(s[s.len() - 1].0 == k);
            } else {
                let i = choose|i: int| 0 <= i < s.drop_last().len() && (#[trigger] s.drop_last()[i]).0 == k;
                assert(s[i].0 == k);
            }
        }
        if exists|i: int| 0 <= i < s.len() && (#[trigger] s[i]).0 == k {
            let i = choose|i: int| 0 <= i < s.len() && (#[trigger] s[i]).0 == k;
            if i < s.len() - 1 {
                assert(s.drop_last()[i].0 == k);
            }
        }
    }
}

pub proof fn lemma_entries_map_index(s: Seq<(Seq<char>, PropValueView)>, i: int)
    requires
        entry_keys_distinct(s),
        0 <= i < s.len(),
    ensures
        entries_map(s).contains_key(s[i].0),
        entries_map(s)[s[i].0] == s[i].1,
    decreases s.len(),
{
    if i == s.len() - 1 {
        assert(s.last() == s[i]);
    } else {
        assert(entry_keys_distinct(s.drop_last()));
        lemma_entries_map_index(s.drop_last(), i);
        assert(s.drop_last()[i] == s[i]);
        assert(s.last().0 != s[i].0);
    }
}

/// Removing the entry at index `i` removes exactly its key from the map.
pub proof fn lemma_entries_map_remove(s: Seq<(Seq<char>, PropValueView)>, i: int)
    requires
        entry_keys_distinct(s),
        0 <= i < s.len(),
    ensures
        entries_map(s.remove(i)) =~= entries_map(s).remove(s[i].0),
    decreases s.len(),
{
    let k = s[i].0;
    if i == s.len() - 1 {
        assert(s.remove(i) =~= s.drop_last());
        lemma_entries_map_contains(s.drop_last(), k);
        assert forall|j: int| 0 <= j < s.drop_last().len() implies (#[trigger] s.drop_last()[j]).0
            != k by {
            assert(s[j] == s.drop_last()[j]);
        }
        assert(!entries_map(s.drop_last()).contains_key(k));
        assert(entries_map(s).remove(k) =~= entries_map(s.drop_last()));
    } else {
        assert(entry_keys_distinct(s.drop_last()));
        lemma_entries_map_remove(s.drop_last(), i);
        assert(s.remove(i).drop_last() =~= s.drop_last().remove(i));
        assert(s.remove(i).last() == s.last());
        assert(s.last().0 != k);
        assert(entries_map(s.remove(i)) =~= entries_map(s.drop_last().remove(i)).insert(
            s.last().0,
            s.last().1,
        ));
    }
}

/// An ordered property bag with unique string keys.
#[derive(Debug)]
pub struct PropMap {
    entries: Vec<(String, PropValue)>,
}

impl View for PropMap {
    type V = Map<Seq<char>, PropValueView>;

    open spec fn view(&self) -> Map<Seq<char>, PropValueView> {
        entries_map(self.entries_view())
    }
}

impl PropMap {
    /// The entries in insertion order.
    pub closed spec fn entries_view(&self) -> Seq<(Seq<char>, PropValueView)> {
        Seq::new(self.entries@.len(), |i: int| (self.entries@[i].0@, self.entries@[i].1@))
    }

    /// Key uniqueness, established by the constructor and kept by every
    /// method.
    pub open spec fn wf(&self) -> bool {
        entry_keys_distinct(self.entries_view())
    }

    pub fn new() -> (r: PropMap)
        ensures
            r.wf(),
            r@ == Map::<Seq<char>, PropValueView>::empty(),
            r.entries_view() == Seq::<(Seq<char>, PropValueView)>::empty(),
    {
        let r = PropMap { entries: Vec::new() };
        proof {
            assert(r.entries_view() =~= Seq::<(Seq<char>, PropValueView)>::empty());
        }
        r
    }

    #[verifier::loop_isolation(false)]

    fn find_idx(&self, k: &str) -> (r: Option<usize>)
        ensures
            match r {
                Some(i) => i < self.entries_view().len() && self.entries_view()[i as int].0 == k@,
                None => forall|i: int|
                    0 <= i < self.entries_view().len() ==> (#[trigger] self.entries_view()[i]).0
                        != k@,
            },
    {
        let mut i: usize = 0;
        while i < self.entries.len()
            invariant
                i <= self.entries.len(),
                forall|j: int| 0 <= j < i ==> (#[trigger] self.entries_view()[j]).0 != k@,
            decreases self.entries.len() - i,
        {
            if str_eq(self.entries[i].0.as_str(), k) {
                return Some(i);
            }
            i = i + 1;
        }
        None
    }

    pub fn len(&self) -> (r: usize)
        ensures
            r == self.entries_view().len(),
    {
        self.entries.len()
    }

    /// The key of the entry at position `i`.
    pub fn key_at(&self, i: usize) -> (r: &String)
        requires
            i < self.entries_view().len(),
        ensures
            r@ == self.entries_view()[i as int].0,
    {
        &self.entries[i].0
    }

    /// The value of the entry at position `i`.
    pub fn value_at(&self, i: usize) -> (r: &PropValue)
        requires
            i < self.entries_view().len(),
        ensures
            r@ == self.entries_view()[i as int].1,
    {
        &self.entries[i].1
    }

    pub fn get(&self, k: &str) -> (r: Option<&PropValue>)
        requires
            self.wf(),
        ensures
            match r {
                Some(v) => self@.contains_key(k@) && v@ == self@[k@],
                None => !self@.contains_key(k@),
            },
    {
        let idx = self.find_idx(k);
        proof {
            lemma_entries_map_contains(self.entries_view(), k@);
        }
        match idx {
            Some(i) => {
                proof {
                    lemma_entries_map_index(self.entries_view(), i as int);
                }
                Some(&self.entries[i].1)
            },
            None => None,
        }
    }

    /// Sets `k` to `v`, overwriting any existing entry for `k`.
    pub fn insert(&mut self, k: String, v: PropValue)
        requires
            old(self).wf(),
        ensures
            final(self).wf(),
            final(self)@ == old(self)@.insert(k@, v@),
            !old(self)@.contains_key(k@) ==> final(self).entries_view() == old(
                self,
            ).entries_view().push((k@, v@)),
    {
        let ghost pre = self.entries_view();
        let idx = self.find_idx(k.as_str());
        proof {
            lemma_entries_map_contains(pre, k@);
        }
        match idx {
            Some(i) => {
                proof {
                    lemma_entries_map_remove(pre, i as int);
                }
                let _ = self.entries.remove(i);
                let ghost mid = self.entries_view();
                proof {
                    assert(mid =~= pre.remove(i as int));
                    assert forall|a: int, b: int| 0 <= a < b < mid.len() implies (
                    #[trigger] mid[a]).0 != (#[trigger] mid[b]).0 by {}
                }
                self.entries.push((k, v));
                proof {
                    assert(self.entries_view() =~= mid.push((k@, v@)));
                    assert(self.entries_view().drop_last() =~= mid);
                    assert(self@ =~= old(self)@.insert(k@, v@));
                    assert forall|a: int, b: int|
                        0 <= a < b < self.entries_view().len() implies (
                    #[trigger] self.entries_view()[a]).0 != (
                    #[trigger] self.entries_view()[b]).0 by {
                        if b == self.entries_view().len() - 1 {
                            lemma_entries_map_contains(mid, mid[a].0);
                            assert(entries_map(mid).contains_key(mid[a].0));
                            assert(!entries_map(mid).contains_key(k@));
                        }
                    }
                }
            },
            None => {
                self.entries.push((k, v));
                proof {
                    assert(self.entries_view() =~= pre.push((k@, v@)));
                    assert(self.entries_view().drop_last() =~= pre);
                    assert(self@ =~= old(self)@.insert(k@, v@));
                    assert forall|a: int, b: int|
                        0 <= a < b < self.entries_view().len() implies (
                    #[trigger] self.entries_view()[a]).0 != (
                    #[trigger] self.entries_view()[b]).0 by {
                        if b == self.entries_view().len() - 1 {
                            assert(pre[a].0 != k@);
                        }
                    }
                }
            },
        }
    }

    /// Removes the entry for `k`, if any.
    pub fn remove(&mut self, k: &str)
        requires
            old(self).wf(),
        ensures
            final(self).wf(),
            final(self)@ == old(self)@.remove(k@),
    {
        let ghost pre = self.entries_view();
        let idx = self.find_idx(k);
        proof {
            lemma_entries_map_contains(pre, k@);
        }
        match idx {
            Some(i) => {
                proof {
                    lemma_entries_map_remove(pre, i as int);
                }
                let _ = self.entries.remove(i);
                proof {
                    assert(self.entries_view() =~= pre.remove(i as int));
                    assert forall|a: int, b: int|
                        0 <= a < b < self.entries_view().len() implies (
                    #[trigger] self.entries_view()[a]).0 != (
                    #[trigger] self.entries_view()[b]).0 by {}
                }
            },
            None => {
                proof {
                    assert(!old(self)@.contains_key(k@));
                    assert(self@ =~= old(self)@.remove(k@));
                }
            },
        }
    }

    /// A copy of this property bag.
    #[verifier::loop_isolation(false)]
    pub fn duplicate(&self) -> (r: PropMap)
        ensures
            r.entries_view() == self.entries_view(),
            r@ == self@,
            r.wf() == self.wf(),
    {
        let mut entries: Vec<(String, PropValue)> = Vec::new();
        let mut i: usize = 0;
        while i < self.entries.len()
            invariant
                i <= self.entries.len(),
                entries@.len() == i,
                forall|j: int|
                    0 <= j < i ==> (#[trigger] entries@[j]).0@ == self.entries@[j].0@
                        && entries@[j].1@ == self.entries@[j].1@,
            decreases self.entries.len() - i,
        {
            let k = self.entries[i].0.clone();
            let v = self.entries[i].1.duplicate();
            entries.push((k, v));
            i = i + 1;
        }
        let r = PropMap { entries };
        proof {
            assert(r.entries_view() =~= self.entries_view());
        }
        r
    }
}

/// Every removal applied to the map, in order.
pub open spec fn apply_removals(
    m: Map<Seq<char>, PropValueView>,
    rs: Seq<Seq<char>>,
) -> Map<Seq<char>, PropValueView>
    decreases rs.len(),
{
    if rs.len() == 0 {
        m
    } else {
        apply_removals(m.remove(rs[0]), rs.drop_first())
    }
}

/// Every update applied to the map, in order.
pub open spec fn apply_updates(
    m: Map<Seq<char>, PropValueView>,
    us: Seq<(Seq<char>, PropValueView)>,
) -> Map<Seq<char>, PropValueView>
    decreases us.len(),
{
    if us.len() == 0 {
        m
    } else {
        apply_updates(m.insert(us[0].0, us[0].1), us.drop_first())
    }
}

/// The set/diff semantics of a property update call: removals first,
/// then updates, so an update wins over a removal of the same key.
pub open spec fn apply_diff(
    m: Map<Seq<char>, PropValueView>,
    rs: Seq<Seq<char>>,
    us: Seq<(Seq<char>, PropValueView)>,
) -> Map<Seq<char>, PropValueView> {
    apply_updates(apply_removals(m, rs), us)
}

/// An update always wins over a removal of the same key applied in the
/// same call: after `apply_diff`, a key whose last update sets it to `v`
/// is present with value `v`, whatever the removals say.
pub proof fn lemma_update_wins(
    m: Map<Seq<char>, PropValueView>,
    rs: Seq<Seq<char>>,
    us: Seq<(Seq<char>, PropValueView)>,
    i: int,
)
    requires
        0 <= i < us.len(),
        forall|j: int| i < j < us.len() ==> (#[trigger] us[j]).0 != us[i].0,
    ensures
        apply_diff(m, rs, us).contains_key(us[i].0),
        apply_diff(m, rs, us)[us[i].0] == us[i].1,
{
    lemma_apply_updates_last(apply_removals(m, rs), us, i);
}

proof fn lemma_apply_updates_last(
    m: Map<Seq<char>, PropValueView>,
    us: Seq<(Seq<char>, PropValueView)>,
    i: int,
)
    requires
        0 <= i < us.len(),
        forall|j: int| i < j < us.len() ==> (#[trigger] us[j]).0 != us[i].0,
    ensures
        apply_updates(m, us).contains_key(us[i].0),
        apply_updates(m, us)[us[i].0] == us[i].1,
    decreases us.len(),
{
    if i == 0 {
        lemma_apply_updates_untouched(m.insert(us[0].0, us[0].1), us.drop_first(), us[0].0);
    } else {
        assert forall|j: int|
            i - 1 < j < us.drop_first().len() implies (#[trigger] us.drop_first()[j]).0
            != us.drop_first()[i - 1].0 by {
            assert(us.drop_first()[j] == us[j + 1]);
        }
        lemma_apply_updates_last(m.insert(us[0].0, us[0].1), us.drop_first(), i - 1);
        assert(us.drop_first()[i - 1] == us[i]);
    }
}

/// A key that no update mentions keeps its value across `apply_updates`.
proof fn lemma_apply_updates_untouched(
    m: Map<Seq<char>, PropValueView>,
    us: Seq<(Seq<char>, PropValueView)>,
    k: Seq<char>,
)
    requires
        forall|j: int| 0 <= j < us.len() ==> (#[trigger] us[j]).0 != k,
    ensures
        apply_updates(m, us).contains_key(k) == m.contains_key(k),
        m.contains_key(k) ==> apply_updates(m, us)[k] == m[k],
    decreases us.len(),
{
    if us.len() > 0 {
        assert(us[0].0 != k);
        assert forall|j: int| 0 <= j < us.drop_first().len() implies (
        #[trigger] us.drop_first()[j]).0 != k by {
            assert(us.drop_first()[j] == us[j + 1]);
        }
        lemma_apply_updates_untouched(m.insert(us[0].0, us[0].1), us.drop_first(), k);
    }
}

/// Value tag: a string follows, escaped.
pub const TAG_STR: u8 = 0x73;

/// Value tag: a decimal number follows.
pub const TAG_INT: u8 = 0x69;

/// Value tag: boolean true, nothing follows.
pub const TAG_TRUE: u8 = 0x74;

/// Value tag: boolean false, nothing follows.
pub const TAG_FALSE: u8 = 0x66;

/// Value tag: null, nothing follows.
pub const TAG_NULL: u8 = 0x6E;

/// One encoded property value: a tag byte and the value's payload.
pub open spec fn enc_prop_value(v: PropValueView) -> Seq<u8> {
    match v {
        PropValueView::Null => seq![TAG_NULL],
        PropValueView::Bool(b) => if b {
            seq![TAG_TRUE]
        } else {
            seq![TAG_FALSE]
        },
        PropValueView::Int(n) => seq![TAG_INT] + dec_digits(n as nat),
        PropValueView::Str(s) => seq![TAG_STR] + escape_bytes(encode_utf8(s)),
    }
}

pub open spec fn dec_prop_value(b: Seq<u8>) -> Option<PropValueView> {
    if b.len() == 0 {
        None
    } else if b[0] == TAG_NULL {
        if b.len() == 1 {
            Some(PropValueView::Null)
        } else {
            None
        }
    } else if b[0] == TAG_TRUE {
        if b.len() == 1 {
            Some(PropValueView::Bool(true))
        } else {
            None
        }
    } else if b[0] == TAG_FALSE {
        if b.len() == 1 {
            Some(PropValueView::Bool(false))
        } else {
            None
        }
    } else if b[0] == TAG_INT {
        match parse_u64(b.drop_first()) {
            Some(n) => Some(PropValueView::Int(n)),
            None => None,
        }
    } else if b[0] == TAG_STR {
        match unescape_bytes(b.drop_first()) {
            Some(u) => if valid_utf8(u) {
                Some(PropValueView::Str(decode_utf8(u)))
            } else {
                None
            },
            None => None,
        }
    } else {
        None
    }
}

/// An encoded value holds neither separator, and decodes back to the
/// value.
pub proof fn lemma_prop_value_round_trip(v: PropValueView)
    ensures
        dec_prop_value(enc_prop_value(v)) == Some(v),
        sep_free(enc_prop_value(v), UNIT_SEP),
        sep_free(enc_prop_value(v), REC_SEP),
        enc_prop_value(v).len() >= 1,
{
    broadcast use vstd::utf8::encode_utf8_valid_utf8;

    broadcast use vstd::utf8::encode_utf8_decode_utf8;

    let e = enc_prop_value(v);
    match v {
        PropValueView::Null => {},
        PropValueView::Bool(b) => {},
        PropValueView::Int(n) => {
            lemma_dec_digits_val(n as nat);
            assert(e.drop_first() =~= dec_digits(n as nat));
            assert(parse_u64(e.drop_first()) == Some(n));
            assert forall|i: int| 0 <= i < e.len() implies e[i] != UNIT_SEP && e[i] != REC_SEP by {
                if i >= 1 {
                    assert(is_digit(dec_digits(n as nat)[i - 1]));
                }
            }
        },
        PropValueView::Str(s) => {
            lemma_unescape_escape(encode_utf8(s));
            lemma_escape_sep_free(encode_utf8(s));
            assert(e.drop_first() =~= escape_bytes(encode_utf8(s)));
            assert forall|i: int| 0 <= i < e.len() implies e[i] != UNIT_SEP && e[i] != REC_SEP by {
                if i >= 1 {
                    assert(escape_bytes(encode_utf8(s))[i - 1] != UNIT_SEP);
                    assert(escape_bytes(encode_utf8(s))[i - 1] != REC_SEP);
                }
            }
        },
    }
}

/// One encoded property entry: the escaped key, the unit separator, the
/// encoded value.
pub open spec fn enc_prop_entry(k: Seq<char>, v: PropValueView) -> Seq<u8> {
    escape_bytes(encode_utf8(k)) + seq![UNIT_SEP] + enc_prop_value(v)
}

pub open spec fn dec_prop_entry(b: Seq<u8>) -> Option<(Seq<char>, PropValueView)> {
    let ps = split_bytes(b, UNIT_SEP);
    if ps.len() == 2 {
        match unescape_bytes(ps[0]) {
            Some(u) => if valid_utf8(u) {
                match dec_prop_value(ps[1]) {
                    Some(v) => Some((decode_utf8(u), v)),
                    None => None,
                }
            } else {
                None
            },
            None => None,
        }
    } else {
        None
    }
}

/// An encoded entry is free of the record separator, holds at least the
/// unit separator, and decodes back to the entry.
pub proof fn lemma_prop_entry_round_trip(k: Seq<char>, v: PropValueView)
    ensures
        dec_prop_entry(enc_prop_entry(k, v)) == Some((k, v)),
        sep_free(enc_prop_entry(k, v), REC_SEP),
        enc_prop_entry(k, v).len() >= 1,
{
    broadcast use vstd::utf8::encode_utf8_valid_utf8;

    broadcast use vstd::utf8::encode_utf8_decode_utf8;

    let kb = escape_bytes(encode_utf8(k));
    let vb = enc_prop_value(v);
    let e = enc_prop_entry(k, v);
    lemma_escape_sep_free(encode_utf8(k));
    lemma_unescape_escape(encode_utf8(k));
    lemma_prop_value_round_trip(v);
    lemma_split_prefix(kb, vb, UNIT_SEP);
    lemma_split_sep_free(vb, UNIT_SEP);
    let ps = split_bytes(e, UNIT_SEP);
    assert(ps =~~= seq![kb, vb]);
    assert forall|i: int| 0 <= i < e.len() implies e[i] != REC_SEP by {
        if i < kb.len() {
            assert(e[i] == kb[i]);
        } else if i == kb.len() {
            assert(e[i] == UNIT_SEP);
        } else {
            assert(e[i] == vb[i - kb.len() - 1]);
        }
    }
}

/// The encoded property bag: the encoded entries joined by the record
/// separator; no entries encode to the empty string.
pub open spec fn enc_props(es: Seq<(Seq<char>, PropValueView)>) -> Seq<u8> {
    if es.len() == 0 {
        Seq::empty()
    } else {
        join_bytes(Seq::new(es.len(), |i: int| enc_prop_entry(es[i].0, es[i].1)), REC_SEP)
    }
}

pub open spec fn dec_props(b: Seq<u8>) -> Option<Seq<(Seq<char>, PropValueView)>> {
    if b.len() == 0 {
        Some(Seq::empty())
    } else {
        let ps = split_bytes(b, REC_SEP);
        if forall|i: int| 0 <= i < ps.len() ==> dec_prop_entry(#[trigger] ps[i]) is Some {
            Some(Seq::new(ps.len(), |i: int| dec_prop_entry(ps[i]).unwrap()))
        } else {
            None
        }
    }
}

/// Round trip: an encoded property bag decodes back to its entries.
pub proof fn lemma_props_round_trip(es: Seq<(Seq<char>, PropValueView)>)
    ensures
        dec_props(enc_props(es)) == Some(es),
{
    if es.len() == 0 {
    } else {
        let parts = Seq::new(es.len(), |i: int| enc_prop_entry(es[i].0, es[i].1));
        assert forall|i: int| 0 <= i < parts.len() implies sep_free(
            #[trigger] parts[i],
            REC_SEP,
        ) by {
            lemma_prop_entry_round_trip(es[i].0, es[i].1);
        }
        lemma_split_join(parts, REC_SEP);
        lemma_prop_entry_round_trip(es[0].0, es[0].1);
        let b = enc_props(es);
        assert(b.len() >= parts[0].len()) by {
            if parts.len() == 1 {
            } else {
                assert(b =~= parts[0] + seq![REC_SEP] + join_bytes(parts.drop_first(), REC_SEP));
            }
        }
        assert(b.len() >= 1);
        let ps = split_bytes(b, REC_SEP);
        assert(ps =~~= parts);
        assert forall|i: int| 0 <= i < ps.len() implies dec_prop_entry(#[trigger] ps[i]) is Some by {
            lemma_prop_entry_round_trip(es[i].0, es[i].1);
        }
        assert(Seq::new(ps.len(), |i: int| dec_prop_entry(ps[i]).unwrap()) =~= es) by {
            assert forall|i: int| 0 <= i < ps.len() implies dec_prop_entry(ps[i]).unwrap() == es[i] by {
                lemma_prop_entry_round_trip(es[i].0, es[i].1);
            }
        }
    }
}

/// `v` in its stored form.
pub fn encode_prop_value(v: &PropValue) -> (r: Vec<u8>)
    ensures
        r@ == enc_prop_value(v@),
{
    match v {
        PropValue::Null => {
            let mut r: Vec<u8> = Vec::new();
            r.push(TAG_NULL);
            proof {
                assert(r@ =~= enc_prop_value(v@));
            }
            r
        },
        PropValue::Bool(b) => {
            let mut r: Vec<u8> = Vec::new();
            if *b {
                r.push(TAG_TRUE);
            } else {
                r.push(TAG_FALSE);
            }
            proof {
                assert(r@ =~= enc_prop_value(v@));
            }
            r
        },
        PropValue::Int(n) => {
            let mut r: Vec<u8> = Vec::new();
            r.push(TAG_INT);
            let mut digits = dec_of_u64(*n);
            r.append(&mut digits);
            proof {
                assert(r@ =~= enc_prop_value(v@));
            }
            r
        },
        PropValue::Str(s) => {
            let mut r: Vec<u8> = Vec::new();
            r.push(TAG_STR);
            let bytes = str_to_bytes(s.as_str());
            let mut esc = escape_vec(&bytes);
            r.append(&mut esc);
            proof {
                assert(r@ =~= enc_prop_value(v@));
            }
            r
        },
    }
}

/// The bytes of `s` from position `i` on.
#[verifier::loop_isolation(false)]
pub fn tail_from(s: &Vec<u8>, i: usize) -> (r: Vec<u8>)
    requires
        i <= s.len(),
    ensures
        r@ == s@.skip(i as int),
{
    let mut r: Vec<u8> = Vec::new();
    let mut j: usize = i;
    while j < s.len()
        invariant
            i <= j <= s.len(),
            r@ =~= s@.subrange(i as int, j as int),
        decreases s.len() - j,
    {
        r.push(s[j]);
        proof {
            assert(r@ =~= s@.subrange(i as int, j as int + 1));
        }
        j = j + 1;
    }
    proof {
        assert(r@ =~= s@.skip(i as int));
    }
    r
}

/// The stored form read back as a value.
pub fn decode_prop_value(b: &Vec<u8>) -> (r: Option<PropValue>)
    ensures
        match r {
            Some(v) => dec_prop_value(b@) == Some(v@),
            None => dec_prop_value(b@) is None,
        },
{
    if b.len() == 0 {
        return None;
    }
    let tag = b[0];
    if tag == TAG_NULL {
        if b.len() == 1 {
            Some(PropValue::Null)
        } else {
            None
        }
    } else if tag == TAG_TRUE {
        if b.len() == 1 {
            Some(PropValue::Bool(true))
        } else {
            None
        }
    } else if tag == TAG_FALSE {
        if b.len() == 1 {
            Some(PropValue::Bool(false))
        } else {
            None
        }
    } else if tag == TAG_INT {
        let rest = tail_from(b, 1);
        proof {
            assert(rest@ =~= b@.drop_first());
        }
        match parse_dec_u64(&rest) {
            Some(n) => Some(PropValue::Int(n)),
            None => None,
        }
    } else if tag == TAG_STR {
        let rest = tail_from(b, 1);
        proof {
            assert(rest@ =~= b@.drop_first());
        }
        match unescape_vec(&rest) {
            Some(u) => match string_from_utf8(&u) {
                Some(s) => {
                    proof {
                        vstd::utf8::encode_utf8_valid_utf8(s@);
                        vstd::utf8::encode_utf8_decode_utf8(s@);
                        assert(valid_utf8(u@));
                        assert(decode_utf8(u@) == s@);
                    }
                    Some(PropValue::Str(s))
                },
                None => None,
            },
            None => None,
        }
    } else {
        None
    }
}

impl PropMap {
    /// This property bag in its stored form.
    #[verifier::loop_isolation(false)]
    pub fn encode(&self) -> (r: Vec<u8>)
        ensures
            r@ == enc_props(self.entries_view()),
    {
        let n = self.len();
        if n == 0 {
            proof {
                assert(self.entries_view().len() == 0);
            }
            return Vec::new();
        }
        let ghost es = self.entries_view();
        let ghost target = Seq::new(es.len(), |i: int| enc_prop_entry(es[i].0, es[i].1));
        let mut parts: Vec<Vec<u8>> = Vec::new();
        let mut i: usize = 0;
        while i < n
            invariant
                i <= n,
                n == es.len(),
                parts@.len() == i,
                forall|j: int| 0 <= j < i ==> #[trigger] parts.deep_view()[j] == target[j],
            decreases n - i,
        {
            let k = self.key_at(i);
            let v = self.value_at(i);
            let kb = str_to_bytes(k.as_str());
            let mut entry = escape_vec(&kb);
            entry.push(crate::codec::UNIT_SEP);
            let mut vb = encode_prop_value(v);
            entry.append(&mut vb);
            let ghost pre = parts.deep_view();
            parts.push(entry);
            proof {
                assert forall|j: int| 0 <= j < i + 1 implies #[trigger] parts.deep_view()[j]
                    == target[j] by {
                    if j < i {
                        assert(parts.deep_view()[j] == pre[j]);
                    } else {
                        assert(parts.deep_view()[j] == parts@[j]@);
                        assert(parts@[j]@ =~= enc_prop_entry(es[j].0, es[j].1));
                    }
                }
            }
            i = i + 1;
        }
        proof {
            assert(parts.deep_view() =~= target);
        }
        join_vec(&parts, REC_SEP)
    }

    /// A stored property bag read back; `None` on a malformed record.
    /// The result's map collapses any duplicate keys, a later entry
    /// winning, exactly as [`entries_map`] does.
    #[verifier::loop_isolation(false)]
    pub fn decode(b: &Vec<u8>) -> (r: Option<PropMap>)
        ensures
            match r {
                Some(p) => p.wf() && (dec_props(b@) matches Some(ds) && p@ == entries_map(ds)),
                None => dec_props(b@) is None,
            },
    {
        broadcast use crate::codec::lemma_vec_u8_deep_view;

        if b.len() == 0 {
            return Some(PropMap::new());
        }
        let parts = split_vec(b, REC_SEP);
        let ghost ps = split_bytes(b@, REC_SEP);
        let mut pm = PropMap::new();
        let mut i: usize = 0;
        while i < parts.len()
            invariant
                i <= parts.len(),
                parts.deep_view() == ps,
                pm.wf(),
                forall|j: int| 0 <= j < i ==> dec_prop_entry(#[trigger] ps[j]) is Some,
                pm@ == entries_map(Seq::new(i as nat, |j: int| dec_prop_entry(ps[j]).unwrap())),
            decreases parts.len() - i,
        {
            proof {
                assert(parts@[i as int]@ == parts.deep_view()[i as int]);
            }
            match decode_prop_entry(&parts[i]) {
                Some((k, v)) => {
                    let ghost pre = Seq::new(i as nat, |j: int| dec_prop_entry(ps[j]).unwrap());
                    pm.insert(k, v);
                    proof {
                        let cur = Seq::new(i as nat + 1, |j: int| dec_prop_entry(ps[j]).unwrap());
                        assert(cur.drop_last() =~= pre);
                        assert(cur.last() == (k@, v@));
                    }
                },
                None => {
                    return None;
                },
            }
            i = i + 1;
        }
        proof {
            let ds = dec_props(b@).unwrap();
            assert(ds =~= Seq::new(ps.len(), |j: int| dec_prop_entry(ps[j]).unwrap()));
        }
        Some(pm)
    }
}

/// One stored property entry read back.
pub fn decode_prop_entry(b: &Vec<u8>) -> (r: Option<(String, PropValue)>)
    ensures
        match r {
            Some(kv) => dec_prop_entry(b@) == Some((kv.0@, kv.1@)),
            None => dec_prop_entry(b@) is None,
        },
{
    broadcast use crate::codec::lemma_vec_u8_deep_view;

    broadcast use vstd::utf8::encode_utf8_decode_utf8;

    let parts = split_vec(b, UNIT_SEP);
    if parts.len() != 2 {
        return None;
    }
    let ghost ps = split_bytes(b@, UNIT_SEP);
    proof {
        assert(parts@[0]@ == parts.deep_view()[0]);
        assert(parts@[1]@ == parts.deep_view()[1]);
    }
    let key_bytes = match unescape_vec(&parts[0]) {
        Some(u) => u,
        None => {
            return None;
        },
    };
    let key = match string_from_utf8(&key_bytes) {
        Some(s) => s,
        None => {
            return None;
        },
    };
    proof {
        vstd::utf8::encode_utf8_valid_utf8(key@);
        vstd::utf8::encode_utf8_decode_utf8(key@);
        assert(valid_utf8(key_bytes@));
        assert(decode_utf8(key_bytes@) == key@);
    }
    match decode_prop_value(&parts[1]) {
        Some(v) => Some((key, v)),
        None => None,
    }
}

} // verus!
