//! Batch queries: many addresses at once, answered in input order by a pool
//! of worker threads that share the index.

use crate::index::{IndexView, IpSearcher};
use crate::text::{ip_octets, parse_ip};
use rayon::iter::{IntoParallelIterator, ParallelIterator};
use rayon::slice::ParallelSlice;
use vstd::prelude::*;
use vstd::utf8::encode_utf8;

verus! {

/// Number of octets of one address in a packed buffer.
pub open spec fn stride_of(is_v6: bool) -> int {
    if is_v6 {
        16
    } else {
        4
    }
}

/// The `i`-th whole chunk of `stride` octets of `buf`.
pub open spec fn chunk(buf: Seq<u8>, stride: int, i: int) -> Seq<u8> {
    buf.subrange(i * stride, i * stride + stride)
}

impl IndexView {
    /// The answers of `contains` for the whole chunks of `buf`, in order. A
    /// trailing partial chunk has no answer.
    pub open spec fn contains_packed(self, buf: Seq<u8>, is_v6: bool) -> Seq<bool> {
        Seq::new(
            (buf.len() / (stride_of(is_v6) as nat)) as nat,
            |i: int| self.contains(chunk(buf, stride_of(is_v6), i)),
        )
    }

    /// The answers of `lookup` for the whole chunks of `buf`, in order. A
    /// trailing partial chunk has no answer.
    pub open spec fn lookup_packed(self, buf: Seq<u8>, is_v6: bool) -> Seq<u16> {
        Seq::new(
            (buf.len() / (stride_of(is_v6) as nat)) as nat,
            |i: int| self.lookup(chunk(buf, stride_of(is_v6), i)),
        )
    }
}

impl IndexView {
    /// The answer of `contains` for the address that `text` spells; `false`
    /// where it spells none.
    pub open spec fn contains_text(self, text: Seq<u8>) -> bool {
        match ip_octets(text) {
            Some(ip) => self.contains(ip),
            None => false,
        }
    }

    /// The answer of `lookup` for the address that `text` spells; 0 where it
    /// spells none.
    pub open spec fn lookup_text(self, text: Seq<u8>) -> u16 {
        match ip_octets(text) {
            Some(ip) => self.lookup(ip),
            None => 0,
        }
    }

    /// The answers of `contains_text` for the texts, in order.
    pub open spec fn contains_strings(self, texts: Seq<Seq<u8>>) -> Seq<bool> {
        Seq::new(texts.len(), |i: int| self.contains_text(texts[i]))
    }

    /// The answers of `lookup_text` for the texts, in order.
    pub open spec fn lookup_strings(self, texts: Seq<Seq<u8>>) -> Seq<u16> {
        Seq::new(texts.len(), |i: int| self.lookup_text(texts[i]))
    }
}

/// The octets of each string, in order.
pub open spec fn octets_of_strings(strings: Seq<String>) -> Seq<Seq<u8>> {
    Seq::new(strings.len(), |i: int| encode_utf8(strings[i]@))
}

/// `par_chunks_exact`, `map` and `collect` of rayon: applies `f` to every
/// whole chunk of `chunk_size` octets of `packed` on the worker pool and
/// collects the results into a vector in the order of the chunks. The octets
/// after the last whole chunk are left out. `par_chunks_exact` panics on a
/// chunk size of zero, which the precondition excludes.
#[verifier::external_body]
fn par_map_chunks<T: Send, F: Fn(&[u8]) -> T + Sync + Send>(
    packed: &[u8],
    chunk_size: usize,
    f: F,
) -> (out: Vec<T>)
    requires
        chunk_size > 0,
        forall|c: &[u8]| c@.len() == chunk_size ==> call_requires(f, (c,)),
    ensures
        out@.len() == packed@.len() / (chunk_size as nat),
        forall|i: int|
            0 <= i < out@.len() ==> exists|c: &[u8]|
                c@ == chunk(packed@, chunk_size as int, i) && call_ensures(f, (c,), #[trigger] out@[i]),
{
    packed.par_chunks_exact(chunk_size).map(f).collect()
}

/// `into_par_iter`, `map` and `collect` of rayon: applies `f` to every item
/// on the worker pool and collects the results into a vector in the order of
/// the items.
#[verifier::external_body]
fn par_map_strings<T: Send, F: Fn(String) -> T + Sync + Send>(items: Vec<String>, f: F) -> (out:
    Vec<T>)
    requires
        forall|i: int| 0 <= i < items@.len() ==> call_requires(f, (#[trigger] items@[i],)),
    ensures
        out@.len() == items@.len(),
        forall|i: int| 0 <= i < out@.len() ==> call_ensures(f, (items@[i],), #[trigger] out@[i]),
{
    items.into_par_iter().map(f).collect()
}

impl<'a> IpSearcher<'a> {
    /// Answers `contains_ip` for every whole 4-octet (or, with `is_v6`,
    /// 16-octet) chunk of `packed_ips`, in input order. A trailing partial
    /// chunk is ignored.
    pub fn contains_packed(&self, packed_ips: &[u8], is_v6: bool) -> (out: Vec<bool>)
        ensures
            out@ == self@.contains_packed(packed_ips@, is_v6),
            out@.len() == packed_ips@.len() / (stride_of(is_v6) as nat),
    {
        let ip_stride: usize = if is_v6 {
            16
        } else {
            4
        };
        let contains = |ip_chunk: &[u8]| -> (found: bool)
            ensures
                found == self@.contains(ip_chunk@),
            { self.contains_ip(ip_chunk) };
        let out = par_map_chunks(packed_ips, ip_stride, contains);
        assert(out@ =~= self@.contains_packed(packed_ips@, is_v6));
        out
    }

    /// Answers `lookup_code` for every whole 4-octet (or, with `is_v6`,
    /// 16-octet) chunk of `packed_ips`, in input order. A trailing partial
    /// chunk is ignored.
    pub fn lookup_codes_packed(&self, packed_ips: &[u8], is_v6: bool) -> (out: Vec<u16>)
        ensures
            out@ == self@.lookup_packed(packed_ips@, is_v6),
            out@.len() == packed_ips@.len() / (stride_of(is_v6) as nat),
    {
        let ip_stride: usize = if is_v6 {
            16
        } else {
            4
        };
        let lookup = |ip_chunk: &[u8]| -> (code: u16)
            ensures
                code == self@.lookup(ip_chunk@),
            { self.lookup_code(ip_chunk) };
        let out = par_map_chunks(packed_ips, ip_stride, lookup);
        assert(out@ =~= self@.lookup_packed(packed_ips@, is_v6));
        out
    }

    /// Answers `contains_ip` for the address that each string spells, in
    /// input order; `false` for a string that spells none.
    pub fn contains_strings(&self, ips: Vec<String>) -> (out: Vec<bool>)
        ensures
            out@ == self@.contains_strings(octets_of_strings(ips@)),
            out@.len() == ips@.len(),
    {
        let ghost texts = octets_of_strings(ips@);
        let contains = |ip_str: String| -> (found: bool)
            ensures
                found == self@.contains_text(encode_utf8(ip_str@)),
            {
                match parse_ip(ip_str.as_str().as_bytes()) {
                    Some(ip) => self.contains_ip(ip.as_slice()),
                    None => false,
                }
            };
        let out = par_map_strings(ips, contains);
        assert(out@ =~= self@.contains_strings(texts));
        out
    }

    /// Answers `lookup_code` for the address that each string spells, in
    /// input order; 0 for a string that spells none.
    pub fn lookup_codes_strings(&self, ips: Vec<String>) -> (out: Vec<u16>)
        ensures
            out@ == self@.lookup_strings(octets_of_strings(ips@)),
            out@.len() == ips@.len(),
    {
        let ghost texts = octets_of_strings(ips@);
        let lookup = |ip_str: String| -> (code: u16)
            ensures
                code == self@.lookup_text(encode_utf8(ip_str@)),
            {
                match parse_ip(ip_str.as_str().as_bytes()) {
                    Some(ip) => self.lookup_code(ip.as_slice()),
                    None => 0,
                }
            };
        let out = par_map_strings(ips, lookup);
        assert(out@ =~= self@.lookup_strings(texts));
        out
    }
}

} // verus!
