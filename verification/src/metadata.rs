//! Upload request metadata: extraction of the target path and block size
//! from request-level key/value metadata.
//!
//! A request carries a multimap of byte-string keys to byte-string values.
//! An upload needs exactly one `path` value and exactly one `block_size`
//! value; a missing key, a repeated key, an empty value or an unparsable
//! block size each reject the request before any I/O, with the offending
//! key (and raw value, for parse failures) preserved for diagnostics.

use vstd::prelude::*;

use crate::bytes::{bytes_eq, clone_bytes, lemma_bytes_deep_view, lemma_deep_view_push};

verus! {

/// Why metadata extraction rejected a request. Each variant carries the
/// offending key; a parse failure also carries the raw value.
#[derive(Debug, PartialEq, Eq)]
pub enum MetadataError {
    /// The key is absent.
    KeyNotFoundError(Vec<u8>),
    /// The key's single value is empty.
    EmptyValueError(Vec<u8>),
    /// The key has more than one value.
    InvalidLengthError(Vec<u8>),
    /// The key's value cannot be parsed; carries the raw value.
    InvalidFormatError(Vec<u8>, Vec<u8>),
}

/// How a metadata error is classed at the transport boundary.
#[derive(Debug, Clone, Copy, PartialEq, Eq, Structural)]
pub enum StatusCode {
    /// The request named something that is not there.
    NotFound,
    /// The request itself is malformed.
    InvalidArgument,
}

impl MetadataError {
    /// The transport-level class of this error.
    pub open spec fn spec_status_code(self) -> StatusCode {
        match self {
            MetadataError::KeyNotFoundError(_) => StatusCode::NotFound,
            MetadataError::EmptyValueError(_) => StatusCode::NotFound,
            MetadataError::InvalidLengthError(_) => StatusCode::InvalidArgument,
            MetadataError::InvalidFormatError(_, _) => StatusCode::InvalidArgument,
        }
    }

    /// Maps the error to its transport-level class: malformed requests are
    /// invalid arguments, absent or empty keys are not-found.
    pub fn status_code(&self) -> (r: StatusCode)
        ensures
            r == self.spec_status_code(),
    {
        match self {
            MetadataError::KeyNotFoundError(_) => StatusCode::NotFound,
            MetadataError::EmptyValueError(_) => StatusCode::NotFound,
            MetadataError::InvalidLengthError(_) => StatusCode::InvalidArgument,
            MetadataError::InvalidFormatError(_, _) => StatusCode::InvalidArgument,
        }
    }
}

/// One key/value pair of request metadata.
struct MetadataPair {
    key: Vec<u8>,
    value: Vec<u8>,
}

/// Request-level metadata: an ordered multimap of keys to values.
pub struct RequestMetadata {
    entries: Vec<MetadataPair>,
}

/// The values under `key` in `s`, in order.
spec fn values_for(s: Seq<MetadataPair>, key: Seq<u8>) -> Seq<Seq<u8>>
    decreases s.len(),
{
    if s.len() == 0 {
        Seq::empty()
    } else {
        let rest = values_for(s.drop_last(), key);
        if s.last().key@ == key {
            rest.push(s.last().value@)
        } else {
            rest
        }
    }
}

impl RequestMetadata {
    /// The values recorded under `key`, in insertion order.
    pub closed spec fn values_of(self, key: Seq<u8>) -> Seq<Seq<u8>> {
        values_for(self.entries@, key)
    }

    /// An empty metadata map.
    pub fn new() -> (r: RequestMetadata)
        ensures
            forall|k: Seq<u8>| #[trigger] r.values_of(k) == Seq::<Seq<u8>>::empty(),
    {
        let r = RequestMetadata { entries: Vec::new() };
        proof {
            assert forall|k: Seq<u8>| #[trigger] r.values_of(k) == Seq::<Seq<u8>>::empty() by {
                assert(r.entries@.len() == 0);
            }
        }
        r
    }

    /// Replaces whatever is under `key` with the single value `value`.
    pub fn insert(&mut self, key: Vec<u8>, value: Vec<u8>)
        ensures
            final(self).values_of(key@) == seq![value@],
            forall|k: Seq<u8>|
                k != key@ ==> (#[trigger] final(self).values_of(k)) == old(self).values_of(k),
    {
        let ghost pre = *self;
        let mut kept: Vec<MetadataPair> = Vec::new();
        let mut i: usize = 0;
        proof {
            assert(pre.entries@.take(0) =~= Seq::<MetadataPair>::empty());
            assert forall|k: Seq<u8>| true implies (#[trigger] values_for(kept@, k)) == (
            if k == key@ {
                Seq::<Seq<u8>>::empty()
            } else {
                values_for(pre.entries@.take(0), k)
            }) by {}
        }
        while i < self.entries.len()
            invariant
                *self == pre,
                i <= self.entries@.len(),
                forall|k: Seq<u8>|
                    (#[trigger] values_for(kept@, k)) == (if k == key@ {
                        Seq::<Seq<u8>>::empty()
                    } else {
                        values_for(pre.entries@.take(i as int), k)
                    }),
            decreases self.entries@.len() - i,
        {
            let ghost kept0 = kept@;
            let keep_it = !bytes_eq(&self.entries[i].key, &key);
            if keep_it {
                let k2 = clone_bytes(&self.entries[i].key);
                let v2 = clone_bytes(&self.entries[i].value);
                kept.push(MetadataPair { key: k2, value: v2 });
            }
            proof {
                let s1 = pre.entries@.take(i + 1);
                assert(s1.drop_last() =~= pre.entries@.take(i as int));
                assert(s1.last() == pre.entries@[i as int]);
                if keep_it {
                    assert(kept@.drop_last() =~= kept0);
                    assert(kept@.last().key@ == pre.entries@[i as int].key@);
                    assert(kept@.last().value@ == pre.entries@[i as int].value@);
                }
                assert forall|k: Seq<u8>|
                    (#[trigger] values_for(kept@, k)) == (if k == key@ {
                        Seq::<Seq<u8>>::empty()
                    } else {
                        values_for(s1, k)
                    }) by {
                    if keep_it {
                        assert(values_for(kept@, k) == if kept@.last().key@ == k {
                            values_for(kept0, k).push(kept@.last().value@)
                        } else {
                            values_for(kept0, k)
                        });
                    } else {
                        assert(pre.entries@[i as int].key@ == key@);
                    }
                }
            }
            i = i + 1;
        }
        proof {
            assert(pre.entries@.take(pre.entries@.len() as int) =~= pre.entries@);
        }
        let ghost kept1 = kept@;
        let ghost keyv = key@;
        let ghost valv = value@;
        kept.push(MetadataPair { key, value });
        proof {
            assert(kept@.drop_last() =~= kept1);
            assert(kept@.last().key@ == keyv && kept@.last().value@ == valv);
            assert forall|k: Seq<u8>| true implies (#[trigger] values_for(kept@, k)) == (
            if k == keyv {
                seq![valv]
            } else {
                values_for(pre.entries@, k)
            }) by {
                assert(values_for(kept1, k) == (if k == keyv {
                    Seq::<Seq<u8>>::empty()
                } else {
                    values_for(pre.entries@, k)
                }));
                if k == keyv {
                    assert(values_for(kept@, k) == values_for(kept1, k).push(valv));
                    assert(values_for(kept@, k) =~= seq![valv]);
                } else {
                    assert(values_for(kept@, k) == values_for(kept1, k));
                }
            }
        }
        self.entries = kept;
    }

    /// Adds one more value under `key`, after any existing ones.
    pub fn append(&mut self, key: Vec<u8>, value: Vec<u8>)
        ensures
            final(self).values_of(key@) == old(self).values_of(key@).push(value@),
            forall|k: Seq<u8>|
                k != key@ ==> (#[trigger] final(self).values_of(k)) == old(self).values_of(k),
    {
        let ghost pre = self.entries@;
        let ghost keyv = key@;
        let ghost valv = value@;
        self.entries.push(MetadataPair { key, value });
        proof {
            assert(self.entries@.drop_last() =~= pre);
            assert(self.entries@.last().key@ == keyv && self.entries@.last().value@ == valv);
        }
    }

    /// The values under `key`, in order.
    pub fn get_all(&self, key: &Vec<u8>) -> (r: Vec<Vec<u8>>)
        ensures
            r.deep_view() == self.values_of(key@),
    {
        let mut r: Vec<Vec<u8>> = Vec::new();
        let mut i: usize = 0;
        proof {
            assert(self.entries@.take(0) =~= Seq::<MetadataPair>::empty());
            assert(r.deep_view() =~= values_for(self.entries@.take(0), key@));
        }
        while i < self.entries.len()
            invariant
                i <= self.entries@.len(),
                r.deep_view() == values_for(self.entries@.take(i as int), key@),
            decreases self.entries@.len() - i,
        {
            proof {
                let s1 = self.entries@.take(i + 1);
                assert(s1.drop_last() =~= self.entries@.take(i as int));
                assert(s1.last() == self.entries@[i as int]);
            }
            if bytes_eq(&self.entries[i].key, key) {
                let ghost r0 = r;
                let v = clone_bytes(&self.entries[i].value);
                let ghost v0 = v;
                r.push(v);
                proof {
                    lemma_bytes_deep_view(v0);
                    lemma_deep_view_push(r0, r, v0);
                }
            }
            i = i + 1;
        }
        proof {
            assert(self.entries@.take(self.entries@.len() as int) =~= self.entries@);
        }
        r
    }
}

/// True of an ASCII decimal digit.
pub open spec fn is_ascii_digit(b: u8) -> bool {
    48 <= b <= 57
}

/// True iff every byte of `s` is an ASCII decimal digit.
pub open spec fn all_digits(s: Seq<u8>) -> bool {
    forall|i: int| 0 <= i < s.len() ==> is_ascii_digit(#[trigger] s[i])
}

/// The integer a string of decimal digits denotes.
pub open spec fn dec_value(s: Seq<u8>) -> int
    decreases s.len(),
{
    if s.len() == 0 {
        0
    } else {
        dec_value(s.drop_last()) * 10 + (s.last() - 48)
    }
}

proof fn lemma_dec_value_nonneg(s: Seq<u8>)
    requires
        all_digits(s),
    ensures
        dec_value(s) >= 0,
    decreases s.len(),
{
    if s.len() > 0 {
        assert(all_digits(s.drop_last())) by {
            assert(forall|i: int| 0 <= i < s.len() - 1 ==> s.drop_last()[i] == #[trigger] s[i]);
        }
        lemma_dec_value_nonneg(s.drop_last());
    }
}

/// Extending a digit string never shrinks its value.
proof fn lemma_dec_value_monotone(s: Seq<u8>, i: int)
    requires
        all_digits(s),
        0 <= i <= s.len(),
    ensures
        dec_value(s) >= dec_value(s.take(i)),
    decreases s.len() - i,
{
    if i < s.len() {
        lemma_dec_value_monotone(s, i + 1);
        let t = s.take(i + 1);
        assert(t.drop_last() =~= s.take(i));
        assert(all_digits(s.take(i))) by {
            assert(forall|j: int| 0 <= j < i ==> s.take(i)[j] == #[trigger] s[j]);
        }
        lemma_dec_value_nonneg(s.take(i));
        assert(dec_value(t) == dec_value(s.take(i)) * 10 + (t.last() - 48));
        assert(dec_value(s.take(i)) * 10 >= dec_value(s.take(i))) by (nonlinear_arith)
            requires
                dec_value(s.take(i)) >= 0,
        ;
    } else {
        assert(s.take(i) =~= s);
    }
}

/// Parses an unsigned decimal integer.
///
/// Succeeds exactly on non-empty, all-digit strings whose value fits in
/// `usize`, and then returns that value.
pub fn parse_usize(v: &Vec<u8>) -> (r: Option<usize>)
    ensures
        match r {
            Some(n) => v@.len() > 0 && all_digits(v@) && n == dec_value(v@),
            None => !(v@.len() > 0 && all_digits(v@) && dec_value(v@) <= usize::MAX),
        },
{
    if v.len() == 0 {
        return None;
    }
    let mut acc: usize = 0;
    let mut i: usize = 0;
    proof {
        assert(v@.take(0) =~= Seq::<u8>::empty());
    }
    while i < v.len()
        invariant
            i <= v@.len(),
            all_digits(v@.take(i as int)),
            acc == dec_value(v@.take(i as int)),
        decreases v@.len() - i,
    {
        let b = v[i];
        proof {
            let t = v@.take(i + 1);
            assert(t.drop_last() =~= v@.take(i as int));
            assert(t.last() == v@[i as int]);
        }
        if b < 48 || b > 57 {
            proof {
                assert(!is_ascii_digit(v@[i as int]));
                assert(!all_digits(v@));
            }
            return None;
        }
        let d = b - 48;
        if acc > (usize::MAX - d as usize) / 10 {
            proof {
                let t = v@.take(i + 1);
                assert(all_digits(t));
                assert(dec_value(t) == acc * 10 + d);
                assert(acc * 10 + d > usize::MAX) by (nonlinear_arith)
                    requires
                        acc > (usize::MAX - d as usize) / 10,
                        0 <= d <= 9,
                        acc >= 0,
                ;
                if all_digits(v@) {
                    lemma_dec_value_monotone(v@, i + 1);
                    assert(v@.take(v@.len() as int) =~= v@);
                    assert(dec_value(v@) > usize::MAX);
                }
            }
            return None;
        }
        proof {
            assert(acc * 10 + d <= usize::MAX) by (nonlinear_arith)
                requires
                    acc <= (usize::MAX - d as usize) / 10,
                    0 <= d <= 9,
                    acc >= 0,
            ;
        }
        acc = acc * 10 + d as usize;
        i = i + 1;
    }
    proof {
        assert(v@.take(v@.len() as int) =~= v@);
    }
    Some(acc)
}

/// The metadata needed to run one upload: the target path and the block
/// size, fixed for the whole upload.
#[derive(Debug)]
pub struct UploadStreamMetadata {
    pub path: Vec<u8>,
    pub block_size: usize,
}

/// The `path` metadata key.
pub open spec fn spec_path_key() -> Seq<u8> {
    seq![112u8, 97, 116, 104]
}

/// The `block_size` metadata key.
pub open spec fn spec_block_size_key() -> Seq<u8> {
    seq![98u8, 108, 111, 99, 107, 95, 115, 105, 122, 101]
}

/// The bytes of the `path` key.
pub fn path_key() -> (r: Vec<u8>)
    ensures
        r@ == spec_path_key(),
{
    let mut r: Vec<u8> = Vec::new();
    r.push(112);
    r.push(97);
    r.push(116);
    r.push(104);
    proof {
        assert(r@ =~= spec_path_key());
    }
    r
}

/// The bytes of the `block_size` key.
pub fn block_size_key() -> (r: Vec<u8>)
    ensures
        r@ == spec_block_size_key(),
{
    let mut r: Vec<u8> = Vec::new();
    r.push(98);
    r.push(108);
    r.push(111);
    r.push(99);
    r.push(107);
    r.push(95);
    r.push(115);
    r.push(105);
    r.push(122);
    r.push(101);
    proof {
        assert(r@ =~= spec_block_size_key());
    }
    r
}

/// True iff a metadata map yields upload metadata: exactly one non-empty
/// `path` value and exactly one non-empty, in-range decimal `block_size`.
pub open spec fn extract_ok(m: RequestMetadata) -> bool {
    let pv = m.values_of(spec_path_key());
    let bv = m.values_of(spec_block_size_key());
    &&& pv.len() == 1 && pv[0].len() > 0
    &&& bv.len() == 1 && bv[0].len() > 0
    &&& all_digits(bv[0]) && dec_value(bv[0]) <= usize::MAX
}

/// The upload path a well-formed metadata map carries.
pub open spec fn extract_path(m: RequestMetadata) -> Seq<u8> {
    m.values_of(spec_path_key())[0]
}

/// The block size a well-formed metadata map carries.
pub open spec fn extract_block_size(m: RequestMetadata) -> int {
    dec_value(m.values_of(spec_block_size_key())[0])
}

/// Which error extraction reports for a malformed map: the first rule
/// violated, in check order (`path` first), with the offending key, and the
/// raw value for a parse failure.
pub open spec fn extract_error_matches(m: RequestMetadata, e: MetadataError) -> bool {
    let pv = m.values_of(spec_path_key());
    let bv = m.values_of(spec_block_size_key());
    match e {
        MetadataError::KeyNotFoundError(k) => (k@ == spec_path_key() && pv.len() == 0) || (k@
            == spec_block_size_key() && pv.len() == 1 && pv[0].len() > 0 && bv.len() == 0),
        MetadataError::InvalidLengthError(k) => (k@ == spec_path_key() && pv.len() > 1) || (k@
            == spec_block_size_key() && pv.len() == 1 && pv[0].len() > 0 && bv.len() > 1),
        MetadataError::EmptyValueError(k) => (k@ == spec_path_key() && pv.len() == 1 && pv[0].len()
            == 0) || (k@ == spec_block_size_key() && pv.len() == 1 && pv[0].len() > 0 && bv.len()
            == 1 && bv[0].len() == 0),
        MetadataError::InvalidFormatError(k, v) => k@ == spec_block_size_key() && pv.len() == 1
            && pv[0].len() > 0 && bv.len() == 1 && bv[0].len() > 0 && v@ == bv[0] && !(all_digits(
            bv[0],
        ) && dec_value(bv[0]) <= usize::MAX),
    }
}

/// Extracts the upload metadata from a request's metadata map.
///
/// Requires exactly one non-empty `path` value and exactly one non-empty,
/// decimal `block_size` value; checks run in that order, `path` first, and
/// the first violated rule names the offending key.
pub fn extract_metadata_from_map(metadata_map: &RequestMetadata) -> (r: Result<
    UploadStreamMetadata,
    MetadataError,
>)
    ensures
        r is Ok <==> extract_ok(*metadata_map),
        ({
            let pv = metadata_map.values_of(spec_path_key());
            let bv = metadata_map.values_of(spec_block_size_key());
            match r {
                Ok(md) => {
                    &&& pv.len() == 1 && pv[0].len() > 0 && md.path@ == pv[0]
                    &&& bv.len() == 1 && bv[0].len() > 0
                    &&& all_digits(bv[0]) && md.block_size == dec_value(bv[0])
                },
                Err(e) => extract_error_matches(*metadata_map, e),
            }
        }),
{
    let pk = path_key();
    let paths = metadata_map.get_all(&pk);
    if paths.len() == 0 {
        return Err(MetadataError::KeyNotFoundError(pk));
    }
    if paths.len() > 1 {
        return Err(MetadataError::InvalidLengthError(pk));
    }
    let path = &paths[0];
    proof {
        lemma_bytes_deep_view(paths@[0]);
        assert(paths@[0]@ == metadata_map.values_of(spec_path_key())[0]);
    }
    if path.len() == 0 {
        return Err(MetadataError::EmptyValueError(pk));
    }

    let bk = block_size_key();
    let block_sizes = metadata_map.get_all(&bk);
    if block_sizes.len() == 0 {
        return Err(MetadataError::KeyNotFoundError(bk));
    }
    if block_sizes.len() > 1 {
        return Err(MetadataError::InvalidLengthError(bk));
    }
    let block_size_raw = &block_sizes[0];
    proof {
        lemma_bytes_deep_view(block_sizes@[0]);
        assert(block_sizes@[0]@ == metadata_map.values_of(spec_block_size_key())[0]);
    }
    if block_size_raw.len() == 0 {
        return Err(MetadataError::EmptyValueError(bk));
    }
    let block_size = match parse_usize(block_size_raw) {
        Some(n) => n,
        None => {
            let raw = clone_bytes(block_size_raw);
            return Err(MetadataError::InvalidFormatError(bk, raw));
        },
    };

    let path_out = clone_bytes(path);
    Ok(UploadStreamMetadata { path: path_out, block_size })
}

} // verus!
