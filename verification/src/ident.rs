//! The identifier model: namespace identifiers (an ordered, non-empty
//! sequence of name components) and table identifiers (namespace plus
//! table name), with their canonical storage-key encoding.
//!
//! A key joins the UTF-8 bytes of the components with a reserved
//! separator byte that is not legal inside any component; encoding is
//! proved deterministic and invertible for every valid identifier.

use vstd::prelude::*;
use vstd::string::StrSliceExecFns;
use vstd::string::StringExecFns;
use vstd::utf8::{decode_utf8, encode_utf8, valid_utf8};

use crate::codec::{
    bytes_has, join_bytes, join_vec, lemma_join_split, lemma_split_join, lemma_split_parts_sep_free,
    sep_free, split_bytes, split_vec, str_to_bytes, string_from_utf8, UNIT_SEP,
};
use crate::props::PropMap;

verus! {

broadcast use {
    vstd::utf8::encode_utf8_valid_utf8,
    vstd::utf8::encode_utf8_decode_utf8,
    vstd::utf8::decode_utf8_encode_utf8,
    crate::codec::lemma_vec_u8_deep_view,
};

/// A name component is any string whose UTF-8 bytes avoid the reserved
/// separator byte.
pub open spec fn valid_component(c: Seq<char>) -> bool {
    sep_free(encode_utf8(c), UNIT_SEP)
}

/// A namespace name: at least one component, every component valid.
pub open spec fn valid_ns_name(v: Seq<Seq<char>>) -> bool {
    v.len() >= 1 && forall|i: int| 0 <= i < v.len() ==> valid_component(#[trigger] v[i])
}

/// The UTF-8 bytes of each component.
pub open spec fn comps_bytes(v: Seq<Seq<char>>) -> Seq<Seq<u8>> {
    Seq::new(v.len(), |i: int| encode_utf8(v[i]))
}

/// The storage key of a namespace: the components' bytes joined by the
/// separator.
pub open spec fn spec_ns_key(v: Seq<Seq<char>>) -> Seq<u8> {
    join_bytes(comps_bytes(v), UNIT_SEP)
}

/// The namespace a storage key denotes, if every chunk is valid UTF-8.
pub open spec fn spec_decode_ns_key(b: Seq<u8>) -> Option<Seq<Seq<char>>> {
    let parts = split_bytes(b, UNIT_SEP);
    if forall|i: int| 0 <= i < parts.len() ==> valid_utf8(#[trigger] parts[i]) {
        Some(Seq::new(parts.len(), |i: int| decode_utf8(parts[i])))
    } else {
        None
    }
}

/// Round trip: the key of a valid namespace name decodes back to it.
pub proof fn lemma_ns_key_round_trip(v: Seq<Seq<char>>)
    requires
        valid_ns_name(v),
    ensures
        spec_decode_ns_key(spec_ns_key(v)) == Some(v),
{
    let parts = comps_bytes(v);
    assert forall|i: int| 0 <= i < parts.len() implies sep_free(#[trigger] parts[i], UNIT_SEP) by {
        assert(valid_component(v[i]));
    }
    lemma_split_join(parts, UNIT_SEP);
    let got = split_bytes(spec_ns_key(v), UNIT_SEP);
    assert(got =~= parts);
    assert forall|i: int| 0 <= i < got.len() implies valid_utf8(#[trigger] got[i]) by {
        assert(got[i] == encode_utf8(v[i]));
    }
    assert(Seq::new(got.len(), |i: int| decode_utf8(got[i])) =~= v);
}

/// A key that decodes came from exactly one valid namespace name, and
/// re-encoding that name gives the key back.
pub proof fn lemma_ns_key_decode_encode(b: Seq<u8>, v: Seq<Seq<char>>)
    requires
        spec_decode_ns_key(b) == Some(v),
    ensures
        valid_ns_name(v),
        spec_ns_key(v) == b,
{
    let parts = split_bytes(b, UNIT_SEP);
    crate::codec::lemma_split_len(b, UNIT_SEP);
    lemma_split_parts_sep_free(b, UNIT_SEP);
    assert(v =~= Seq::new(parts.len(), |i: int| decode_utf8(parts[i])));
    assert forall|i: int| 0 <= i < v.len() implies valid_component(#[trigger] v[i]) by {
        assert(valid_utf8(parts[i]));
        assert(encode_utf8(v[i]) == parts[i]);
    }
    assert(comps_bytes(v) =~= parts);
    lemma_join_split(b, UNIT_SEP);
}

/// NamespaceIdent represents the identifier of a namespace in the
/// catalog: an ordered list of name components.
#[derive(Debug, PartialEq, Eq, Hash)]
pub struct NamespaceIdent(pub Vec<String>);

impl Clone for NamespaceIdent {
    /// A clone denotes the same identifier.
    fn clone(&self) -> (r: Self)
        ensures
            r@ == self@,
    {
        broadcast use vstd::std_specs::vec::vec_clone_deep_view_proof;

        NamespaceIdent(self.0.clone())
    }
}

impl View for NamespaceIdent {
    type V = Seq<Seq<char>>;

    open spec fn view(&self) -> Seq<Seq<char>> {
        self.0.deep_view()
    }
}

impl DeepView for NamespaceIdent {
    type V = Seq<Seq<char>>;

    open spec fn deep_view(&self) -> Seq<Seq<char>> {
        self.view()
    }
}

impl NamespaceIdent {
    /// Wraps the given components as a namespace identifier.
    pub fn new(id: Vec<String>) -> (r: NamespaceIdent)
        ensures
            r@ == id.deep_view(),
    {
        NamespaceIdent(id)
    }

    /// A multi-level namespace identifier; an empty component list is
    /// invalid data.
    pub fn from_vec(names: Vec<String>) -> (r: Result<NamespaceIdent, crate::error::CatalogError>)
        ensures
            match r {
                Ok(ns) => names.deep_view().len() >= 1 && ns@ == names.deep_view(),
                Err(e) => names.deep_view().len() == 0 && e == crate::error::CatalogError::DataInvalid,
            },
    {
        if names.len() == 0 {
            Err(crate::error::CatalogError::DataInvalid)
        } else {
            Ok(NamespaceIdent(names))
        }
    }

    /// A namespace identifier from string slices; an empty list is
    /// invalid data.
    #[verifier::loop_isolation(false)]
    pub fn from_strs(names: Vec<&str>) -> (r: Result<NamespaceIdent, crate::error::CatalogError>)
        ensures
            match r {
                Ok(ns) => names.deep_view().len() >= 1 && ns@ == names.deep_view(),
                Err(e) => names.deep_view().len() == 0 && e == crate::error::CatalogError::DataInvalid,
            },
    {
        let mut owned: Vec<String> = Vec::new();
        let mut i: usize = 0;
        while i < names.len()
            invariant
                i <= names.len(),
                owned.deep_view() =~= names.deep_view().take(i as int),
            decreases names.len() - i,
        {
            owned.push(names[i].to_owned());
            proof {
                assert(owned.deep_view() =~= names.deep_view().take(i as int + 1));
            }
            i = i + 1;
        }
        proof {
            assert(names.deep_view().take(names.len() as int) =~= names.deep_view());
        }
        NamespaceIdent::from_vec(owned)
    }

    /// The inner component list.
    pub fn inner(self) -> (r: Vec<String>)
        ensures
            r.deep_view() == self@,
    {
        self.0
    }

    /// Whether this identifier is valid: non-empty, no component holding
    /// the reserved separator.
    #[verifier::loop_isolation(false)]
    pub fn is_valid(&self) -> (r: bool)
        ensures
            r == valid_ns_name(self@),
    {
        if self.0.len() == 0 {
            return false;
        }
        let mut i: usize = 0;
        while i < self.0.len()
            invariant
                i <= self.0.len(),
                self.0.len() >= 1,
                forall|j: int| 0 <= j < i ==> valid_component(#[trigger] self@[j]),
            decreases self.0.len() - i,
        {
            let bytes = str_to_bytes(self.0[i].as_str());
            if bytes_has(&bytes, UNIT_SEP) {
                proof {
                    assert(!valid_component(self@[i as int]));
                }
                return false;
            }
            i = i + 1;
        }
        true
    }

    /// The storage key of this namespace.
    #[verifier::loop_isolation(false)]
    pub fn key_bytes(&self) -> (r: Vec<u8>)
        ensures
            r@ == spec_ns_key(self@),
    {
        let mut parts: Vec<Vec<u8>> = Vec::new();
        let mut i: usize = 0;
        while i < self.0.len()
            invariant
                i <= self.0.len(),
                parts@.len() == i,
                forall|j: int|
                    0 <= j < i ==> #[trigger] parts.deep_view()[j] == encode_utf8(self@[j]),
            decreases self.0.len() - i,
        {
            let b = str_to_bytes(self.0[i].as_str());
            let ghost pre = parts.deep_view();
            parts.push(b);
            proof {
                assert forall|j: int| 0 <= j < i + 1 implies #[trigger] parts.deep_view()[j]
                    == encode_utf8(self@[j]) by {
                    if j < i {
                        assert(parts.deep_view()[j] == pre[j]);
                    } else {
                        assert(parts.deep_view()[j] == b@);
                    }
                }
            }
            i = i + 1;
        }
        proof {
            assert forall|k: int| 0 <= k < parts.deep_view().len() implies parts.deep_view()[k]
                == comps_bytes(self@)[k] by {
                assert(parts.deep_view()[k] == encode_utf8(self@[k]));
            }
            assert(parts.deep_view() =~= comps_bytes(self@));
        }
        join_vec(&parts, UNIT_SEP)
    }

    /// The namespace a storage key denotes; `None` when a chunk is not
    /// valid UTF-8.
    #[verifier::loop_isolation(false)]
    pub fn from_key_bytes(b: &Vec<u8>) -> (r: Option<NamespaceIdent>)
        ensures
            match r {
                Some(ns) => spec_decode_ns_key(b@) == Some(ns@) && valid_ns_name(ns@)
                    && spec_ns_key(ns@) == b@,
                None => spec_decode_ns_key(b@) is None,
            },
    {
        let parts = split_vec(b, UNIT_SEP);
        let ghost sparts = split_bytes(b@, UNIT_SEP);
        let mut comps: Vec<String> = Vec::new();
        let mut i: usize = 0;
        while i < parts.len()
            invariant
                i <= parts.len(),
                parts.deep_view() == sparts,
                comps.deep_view().len() == i,
                forall|j: int|
                    0 <= j < i ==> valid_utf8(#[trigger] sparts[j]) && comps.deep_view()[j]
                        == decode_utf8(sparts[j]),
            decreases parts.len() - i,
        {
            proof {
                assert(parts@[i as int]@ == parts.deep_view()[i as int]);
            }
            match string_from_utf8(&parts[i]) {
                Some(s) => {
                    proof {
                        assert(encode_utf8(s@) == sparts[i as int]);
                        assert(decode_utf8(sparts[i as int]) == s@);
                    }
                    comps.push(s);
                },
                None => {
                    proof {
                        assert(!valid_utf8(sparts[i as int]));
                    }
                    return None;
                },
            }
            i = i + 1;
        }
        let ns = NamespaceIdent(comps);
        proof {
            assert(ns@ =~= Seq::new(sparts.len(), |i: int| decode_utf8(sparts[i])));
            lemma_ns_key_decode_encode(b@, ns@);
        }
        Some(ns)
    }
}

/// A byte the URL encoding leaves as it stands: an ASCII alphanumeric
/// or one of `-`, `.`, `_`, `~`.
pub open spec fn is_url_unreserved(b: u8) -> bool {
    ||| 0x30 <= b <= 0x39
    ||| 0x41 <= b <= 0x5A
    ||| 0x61 <= b <= 0x7A
    ||| b == 0x2D
    ||| b == 0x2E
    ||| b == 0x5F
    ||| b == 0x7E
}

/// The uppercase hexadecimal digit for a value below sixteen.
pub open spec fn hex_digit_char(d: u8) -> char {
    if d < 10 {
        ((0x30 + d) as u8) as char
    } else {
        ((0x41 + (d - 10)) as u8) as char
    }
}

/// One byte of the percent-encoded form: an unreserved byte stands for
/// itself, every other byte becomes a percent escape of two uppercase
/// hexadecimal digits.
pub open spec fn url_enc_byte(b: u8) -> Seq<char> {
    if is_url_unreserved(b) {
        seq![b as char]
    } else {
        seq!['%', hex_digit_char(b / 16), hex_digit_char(b % 16)]
    }
}

/// The percent-encoded form of a byte string.
pub open spec fn url_encoded_of(bytes: Seq<u8>) -> Seq<char>
    decreases bytes.len(),
{
    if bytes.len() == 0 {
        Seq::empty()
    } else {
        url_enc_byte(bytes[0]) + url_encoded_of(bytes.drop_first())
    }
}

/// Relies on urlencoding::encode: percent-encodes every byte of the
/// string's UTF-8 form except ASCII alphanumerics and `-`, `.`, `_`,
/// `~`, with uppercase hexadecimal digits.
#[verifier::external_body]
fn url_encode(s: &str) -> (r: String)
    ensures
        r@ == url_encoded_of(encode_utf8(s@)),
{
    urlencoding::encode(s).into_owned()
}

/// The components joined with `sep` between consecutive components.
pub open spec fn join_chars(parts: Seq<Seq<char>>, sep: char) -> Seq<char>
    decreases parts.len(),
{
    if parts.len() == 0 {
        Seq::empty()
    } else if parts.len() == 1 {
        parts[0]
    } else {
        parts[0] + seq![sep] + join_chars(parts.drop_first(), sep)
    }
}

impl NamespaceIdent {
    fn join_components_from(&self, i: usize) -> (r: String)
        requires
            i <= self.0.len(),
        ensures
            r@ == join_chars(self@.skip(i as int), '\u{1F}'),
        decreases self.0.len() - i,
    {
        let ghost rest = self@.skip(i as int);
        if i == self.0.len() {
            proof {
                assert(rest =~= Seq::<Seq<char>>::empty());
            }
            String::new()
        } else if i + 1 == self.0.len() {
            let r = self.0[i].clone();
            proof {
                assert(rest.len() == 1);
                assert(rest[0] == self@[i as int]);
            }
            r
        } else {
            let mut r = self.0[i].clone();
            r.append("\u{1F}");
            let tail = self.join_components_from(i + 1);
            r.append(tail.as_str());
            proof {
                reveal_strlit("\u{1F}");
                assert("\u{1F}"@ =~= seq!['\u{1F}']);
                assert(rest[0] == self@[i as int]);
                assert(rest.drop_first() =~= self@.skip(i as int + 1));
                assert(r@ =~= join_chars(rest, '\u{1F}'));
            }
            r
        }
    }

    /// The URL path form: the components joined by the separator, then
    /// percent-encoded.
    pub fn encode_in_url(&self) -> (r: String)
        ensures
            r@ == url_encoded_of(encode_utf8(join_chars(self@, '\u{1F}'))),
    {
        let joined = self.join_components_from(0);
        proof {
            assert(self@.skip(0) =~= self@);
        }
        url_encode(joined.as_str())
    }
}

/// The mathematical shape of a table identifier.
pub ghost struct TableIdentView {
    pub ns: Seq<Seq<char>>,
    pub name: Seq<char>,
}

/// A table identifier is valid when its namespace is and its name avoids
/// the reserved separator.
pub open spec fn valid_table_ident(t: TableIdentView) -> bool {
    valid_ns_name(t.ns) && valid_component(t.name)
}

/// The storage key of a table: the namespace components' bytes and then
/// the table name's bytes, joined by the separator.
pub open spec fn spec_table_key(t: TableIdentView) -> Seq<u8> {
    join_bytes(comps_bytes(t.ns).push(encode_utf8(t.name)), UNIT_SEP)
}

/// The table identity a storage key denotes: at least two chunks, all
/// valid UTF-8; the last chunk is the table name.
pub open spec fn spec_decode_table_key(b: Seq<u8>) -> Option<TableIdentView> {
    let parts = split_bytes(b, UNIT_SEP);
    if parts.len() >= 2 && (forall|i: int| 0 <= i < parts.len() ==> valid_utf8(#[trigger] parts[i])) {
        Some(
            TableIdentView {
                ns: Seq::new((parts.len() - 1) as nat, |i: int| decode_utf8(parts[i])),
                name: decode_utf8(parts.last()),
            },
        )
    } else {
        None
    }
}

/// Round trip: the key of a valid table identifier decodes back to it.
pub proof fn lemma_table_key_round_trip(t: TableIdentView)
    requires
        valid_table_ident(t),
    ensures
        spec_decode_table_key(spec_table_key(t)) == Some(t),
{
    let parts = comps_bytes(t.ns).push(encode_utf8(t.name));
    assert forall|i: int| 0 <= i < parts.len() implies sep_free(#[trigger] parts[i], UNIT_SEP) by {
        if i < parts.len() - 1 {
            assert(valid_component(t.ns[i]));
            assert(parts[i] == encode_utf8(t.ns[i]));
        }
    }
    lemma_split_join(parts, UNIT_SEP);
    let got = split_bytes(spec_table_key(t), UNIT_SEP);
    assert(got =~= parts);
    assert forall|i: int| 0 <= i < got.len() implies valid_utf8(#[trigger] got[i]) by {
        if i < got.len() - 1 {
            assert(got[i] == encode_utf8(t.ns[i]));
        } else {
            assert(got[i] == encode_utf8(t.name));
        }
    }
    let dec = spec_decode_table_key(spec_table_key(t)).unwrap();
    assert(got.last() == encode_utf8(t.name));
    assert(dec.ns =~= t.ns);
}

/// A key that decodes came from exactly one valid table identifier, and
/// re-encoding it gives the key back.
pub proof fn lemma_table_key_decode_encode(b: Seq<u8>, t: TableIdentView)
    requires
        spec_decode_table_key(b) == Some(t),
    ensures
        valid_table_ident(t),
        spec_table_key(t) == b,
{
    let parts = split_bytes(b, UNIT_SEP);
    lemma_split_parts_sep_free(b, UNIT_SEP);
    assert(t.ns =~= Seq::new((parts.len() - 1) as nat, |i: int| decode_utf8(parts[i])));
    assert forall|i: int| 0 <= i < t.ns.len() implies valid_component(#[trigger] t.ns[i]) by {
        assert(valid_utf8(parts[i]));
        assert(encode_utf8(t.ns[i]) == parts[i]);
    }
    assert(valid_utf8(parts.last()));
    assert(encode_utf8(t.name) == parts.last());
    assert(comps_bytes(t.ns).push(encode_utf8(t.name)) =~= parts);
    lemma_join_split(b, UNIT_SEP);
}

/// TableIdent represents the identifier of a table in the catalog.
#[derive(Debug, PartialEq, Eq, Hash)]
pub struct TableIdent {
    /// Namespace of the table.
    pub namespace: NamespaceIdent,
    /// Table name.
    pub name: String,
}

impl Clone for TableIdent {
    /// A clone denotes the same identifier.
    fn clone(&self) -> (r: Self)
        ensures
            r@ == self@,
    {
        TableIdent { namespace: self.namespace.clone(), name: self.name.clone() }
    }
}

impl View for TableIdent {
    type V = TableIdentView;

    open spec fn view(&self) -> TableIdentView {
        TableIdentView { ns: self.namespace@, name: self.name@ }
    }
}

impl DeepView for TableIdent {
    type V = TableIdentView;

    open spec fn deep_view(&self) -> TableIdentView {
        self.view()
    }
}

impl TableIdent {
    /// Create a new table identifier.
    pub fn new(namespace: NamespaceIdent, name: String) -> (r: TableIdent)
        ensures
            r@ == (TableIdentView { ns: namespace@, name: name@ }),
    {
        TableIdent { namespace, name }
    }

    /// Get the namespace of the table.
    pub fn namespace(&self) -> (r: &NamespaceIdent)
        ensures
            r@ == self@.ns,
    {
        &self.namespace
    }

    /// Get the name of the table.
    pub fn name(&self) -> (r: &str)
        ensures
            r@ == self@.name,
    {
        self.name.as_str()
    }

    /// A table identifier from string slices: the last one is the table
    /// name, the rest the namespace.  Fewer than two is invalid data.
    #[verifier::loop_isolation(false)]
    pub fn from_strs(parts: Vec<&str>) -> (r: Result<TableIdent, crate::error::CatalogError>)
        ensures
            match r {
                Ok(t) => parts.deep_view().len() >= 2 && t@.ns == parts.deep_view().drop_last()
                    && t@.name == parts.deep_view().last(),
                Err(e) => parts.deep_view().len() < 2 && e
                    == crate::error::CatalogError::DataInvalid,
            },
    {
        if parts.len() < 2 {
            return Err(crate::error::CatalogError::DataInvalid);
        }
        let name = parts[parts.len() - 1].to_owned();
        let mut comps: Vec<String> = Vec::new();
        let mut i: usize = 0;
        while i < parts.len() - 1
            invariant
                parts.deep_view().len() >= 2,
                i <= parts.len() - 1,
                comps.deep_view() =~= parts.deep_view().take(i as int),
            decreases parts.len() - 1 - i,
        {
            comps.push(parts[i].to_owned());
            proof {
                assert(comps.deep_view() =~= parts.deep_view().take(i as int + 1));
            }
            i = i + 1;
        }
        proof {
            assert(parts.deep_view().take(parts.len() - 1) =~= parts.deep_view().drop_last());
        }
        Ok(TableIdent { namespace: NamespaceIdent(comps), name })
    }

    /// Whether this identifier is valid.
    #[verifier::loop_isolation(false)]
    pub fn is_valid(&self) -> (r: bool)
        ensures
            r == valid_table_ident(self@),
    {
        if !self.namespace.is_valid() {
            return false;
        }
        let bytes = str_to_bytes(self.name.as_str());
        !bytes_has(&bytes, UNIT_SEP)
    }

    /// The storage key of this table identity.
    #[verifier::loop_isolation(false)]
    pub fn key_bytes(&self) -> (r: Vec<u8>)
        ensures
            r@ == spec_table_key(self@),
    {
        let mut parts: Vec<Vec<u8>> = Vec::new();
        let mut i: usize = 0;
        while i < self.namespace.0.len()
            invariant
                i <= self.namespace.0.len(),
                parts@.len() == i,
                forall|j: int|
                    0 <= j < i ==> #[trigger] parts.deep_view()[j] == encode_utf8(self@.ns[j]),
            decreases self.namespace.0.len() - i,
        {
            let b = str_to_bytes(self.namespace.0[i].as_str());
            let ghost pre = parts.deep_view();
            parts.push(b);
            proof {
                assert forall|j: int| 0 <= j < i + 1 implies #[trigger] parts.deep_view()[j]
                    == encode_utf8(self@.ns[j]) by {
                    if j < i {
                        assert(parts.deep_view()[j] == pre[j]);
                    } else {
                        assert(parts.deep_view()[j] == b@);
                    }
                }
            }
            i = i + 1;
        }
        let ghost pre = parts.deep_view();
        let nb = str_to_bytes(self.name.as_str());
        parts.push(nb);
        proof {
            let target = comps_bytes(self@.ns).push(encode_utf8(self@.name));
            assert forall|k: int| 0 <= k < parts.deep_view().len() implies parts.deep_view()[k]
                == target[k] by {
                if k < self@.ns.len() {
                    assert(parts.deep_view()[k] == pre[k]);
                    assert(pre[k] == encode_utf8(self@.ns[k]));
                } else {
                    assert(parts.deep_view()[k] == nb@);
                }
            }
            assert(parts.deep_view() =~= target);
        }
        join_vec(&parts, UNIT_SEP)
    }

    /// The table identity a storage key denotes; `None` when the key has
    /// fewer than two chunks or a chunk is not valid UTF-8.
    #[verifier::loop_isolation(false)]
    pub fn from_key_bytes(b: &Vec<u8>) -> (r: Option<TableIdent>)
        ensures
            match r {
                Some(t) => spec_decode_table_key(b@) == Some(t@) && valid_table_ident(t@)
                    && spec_table_key(t@) == b@,
                None => spec_decode_table_key(b@) is None,
            },
    {
        let parts = split_vec(b, UNIT_SEP);
        let ghost sparts = split_bytes(b@, UNIT_SEP);
        if parts.len() < 2 {
            return None;
        }
        let mut comps: Vec<String> = Vec::new();
        let mut i: usize = 0;
        while i < parts.len() - 1
            invariant
                i <= parts.len() - 1,
                parts.deep_view() == sparts,
                sparts.len() >= 2,
                comps.deep_view().len() == i,
                forall|j: int|
                    0 <= j < i ==> valid_utf8(#[trigger] sparts[j]) && comps.deep_view()[j]
                        == decode_utf8(sparts[j]),
            decreases parts.len() - 1 - i,
        {
            proof {
                assert(parts@[i as int]@ == parts.deep_view()[i as int]);
            }
            match string_from_utf8(&parts[i]) {
                Some(s) => {
                    proof {
                        assert(encode_utf8(s@) == sparts[i as int]);
                    }
                    comps.push(s);
                },
                None => {
                    proof {
                        assert(!valid_utf8(sparts[i as int]));
                    }
                    return None;
                },
            }
            i = i + 1;
        }
        proof {
            assert(parts@[parts@.len() - 1]@ == parts.deep_view()[sparts.len() - 1]);
        }
        let name = match string_from_utf8(&parts[parts.len() - 1]) {
            Some(s) => s,
            None => {
                proof {
                    assert(!valid_utf8(sparts[sparts.len() - 1]));
                }
                return None;
            },
        };
        let t = TableIdent { namespace: NamespaceIdent(comps), name };
        proof {
            assert(encode_utf8(t@.name) == sparts.last());
            assert(decode_utf8(sparts.last()) == t@.name);
            assert(t@.ns =~= Seq::new((sparts.len() - 1) as nat, |i: int| decode_utf8(sparts[i])));
            lemma_table_key_decode_encode(b@, t@);
        }
        Some(t)
    }
}

/// Namespace represents a namespace in the catalog: its identifier and
/// its properties.
pub struct Namespace {
    pub name: NamespaceIdent,
    pub properties: PropMap,
}

impl Namespace {
    /// Create a new namespace with no properties.
    pub fn new(name: NamespaceIdent) -> (r: Namespace)
        ensures
            r.name == name,
            r.properties@ == Map::<Seq<char>, crate::props::PropValueView>::empty(),
            r.properties.wf(),
    {
        Namespace::with_properties(name, PropMap::new())
    }

    /// Create a new namespace with properties.
    pub fn with_properties(name: NamespaceIdent, properties: PropMap) -> (r: Namespace)
        ensures
            r.name == name,
            r.properties == properties,
    {
        Namespace { name, properties }
    }

    /// Get the name of the namespace.
    pub fn name(&self) -> (r: &NamespaceIdent)
        ensures
            r == &self.name,
    {
        &self.name
    }

    /// Get the properties of the namespace.
    pub fn properties(&self) -> (r: &PropMap)
        ensures
            r == &self.properties,
    {
        &self.properties
    }
}

} // verus!
