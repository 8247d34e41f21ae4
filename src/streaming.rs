//! Streaming hashers that produce Data-Codes and Instance-Codes from input fed in parts.
use crate::cdc::{alg_cdc_chunks, cdc_chunks, chunks_of, DATA_AVG_CHUNK_SIZE};
use crate::codec::{component_text, encodable, encode_component, iscc_prefix, MainType, SubType, Version};
use crate::digest::{
    blake3_hasher_finalize, blake3_hasher_new, blake3_hasher_update, blake3_of, hasher_input,
    hex_encode, multihash_text, xxh32, xxh32_of,
};
use crate::generate::{data_features, with_prefix, DataCodeResult, InstanceCodeResult};
use crate::minhash::{alg_minhash_256, minhash_digest};
use crate::IsccError;
use vstd::prelude::*;

verus! {

/// Incremental Instance-Code generator.
pub struct InstanceHasher {
    hasher: blake3::Hasher,
    filesize: u64,
}

impl InstanceHasher {
    /// All bytes fed so far.
    pub closed spec fn input(&self) -> Seq<u8> {
        hasher_input(self.hasher)
    }

    /// The byte count matches the bytes fed.
    pub closed spec fn wf(&self) -> bool {
        self.filesize == hasher_input(self.hasher).len()
    }

    /// A hasher that has been fed nothing.
    pub fn new() -> (r: InstanceHasher)
        ensures
            r.wf(),
            r.input() == Seq::<u8>::empty(),
    {
        InstanceHasher { hasher: blake3_hasher_new(), filesize: 0 }
    }

    /// Feeds `data` after the bytes fed before.
    pub fn update(&mut self, data: &[u8])
        requires
            old(self).wf(),
            old(self).input().len() + data@.len() <= u64::MAX,
        ensures
            final(self).wf(),
            final(self).input() == old(self).input() + data@,
    {
        self.filesize = self.filesize + data.len() as u64;
        blake3_hasher_update(&mut self.hasher, data);
    }

    /// The Instance-Code of all bytes fed, as `gen_instance_code_v0` gives it for them.
    pub fn finalize(self, bits: u32) -> (r: Result<InstanceCodeResult, IsccError>)
        requires
            self.wf(),
        ensures
            r is Ok <==> encodable(MainType::Instance, bits as nat),
            r is Ok ==> r->Ok_0.iscc@ == iscc_prefix() + component_text(
                MainType::Instance,
                SubType::Unspecified,
                bits as nat,
                blake3_of(self.input()),
            ),
            r is Ok ==> r->Ok_0.datahash@ == multihash_text(self.input()),
            r is Ok ==> r->Ok_0.filesize == self.input().len(),
    {
        let digest = blake3_hasher_finalize(&self.hasher);
        let mut bytes: Vec<u8> = Vec::new();
        bytes.push(0x1e);
        bytes.push(0x20);
        crate::bits::append_range(&mut bytes, digest.as_slice(), 0, digest.len());
        assert(digest@.subrange(0, digest@.len() as int) =~= digest@);
        let datahash = hex_encode(bytes.as_slice());
        let component = encode_component(
            MainType::Instance,
            SubType::Unspecified,
            Version::V0,
            bits,
            digest.as_slice(),
        )?;
        Ok(InstanceCodeResult { iscc: with_prefix(component.as_str()), datahash, filesize: self.filesize })
    }
}

impl Default for InstanceHasher {
    /// A hasher that has been fed nothing.
    fn default() -> (r: InstanceHasher)
        ensures
            r.wf(),
            r.input() == Seq::<u8>::empty(),
    {
        InstanceHasher::new()
    }
}

/// Incremental Data-Code generator.
pub struct DataHasher {
    chunk_features: Vec<u32>,
    buf: Vec<u8>,
    fed: Ghost<Seq<u8>>,
    done: Ghost<Seq<Seq<u8>>>,
}

impl DataHasher {
    /// All bytes fed so far.
    pub closed spec fn input(&self) -> Seq<u8> {
        self.fed@
    }

    /// The chunks hashed so far, followed by the retained bytes, are the chunks of the input.
    pub closed spec fn wf(&self) -> bool {
        &&& self.chunk_features@ == self.done@.map_values(|c: Seq<u8>| xxh32_of(c))
        &&& if self.fed@.len() == 0 {
            self.done@.len() == 0 && self.buf@.len() == 0
        } else {
            self.buf@.len() > 0 && chunks_of(self.fed@, false, DATA_AVG_CHUNK_SIZE as nat)
                == self.done@.push(self.buf@)
        }
    }

    /// A hasher that has been fed nothing.
    pub fn new() -> (r: DataHasher)
        ensures
            r.wf(),
            r.input() == Seq::<u8>::empty(),
    {
        let r = DataHasher {
            chunk_features: Vec::new(),
            buf: Vec::new(),
            fed: Ghost(Seq::empty()),
            done: Ghost(Seq::empty()),
        };
        assert(r.chunk_features@ =~= r.done@.map_values(|c: Seq<u8>| xxh32_of(c)));
        r
    }

    /// Feeds `data` after the bytes fed before: chunks the retained bytes followed by `data`,
    /// hashes every chunk but the last, and retains the last.
    pub fn update(&mut self, data: &[u8])
        requires
            old(self).wf(),
        ensures
            final(self).wf(),
            final(self).input() == old(self).input() + data@,
    {
        let ghost a = DATA_AVG_CHUNK_SIZE as nat;
        let ghost fed0 = self.fed@;
        let ghost done0 = self.done@;
        let ghost buf0 = self.buf@;
        crate::bits::append_range(&mut self.buf, data, 0, data.len());
        assert(data@.subrange(0, data@.len() as int) =~= data@);
        let ghost all = self.buf@;
        assert(all == buf0 + data@);
        let chunks = match alg_cdc_chunks(self.buf.as_slice(), false, DATA_AVG_CHUNK_SIZE) {
            Ok(c) => c,
            Err(_) => {
                return;
            },
        };
        let ghost cs = cdc_chunks(all, false, a);
        proof {
            crate::cdc::lemma_cdc_chunks_partition(all, a);
        }
        let n = chunks.len();
        let mut i: usize = 0;
        while i + 1 < n
            invariant
                i < n,
                n == chunks@.len(),
                chunks@.map_values(|c: &[u8]| c@) == cs,
                self.chunk_features@ == done0.map_values(|c: Seq<u8>| xxh32_of(c)) + cs.subrange(
                    0,
                    i as int,
                ).map_values(|c: Seq<u8>| xxh32_of(c)),
            decreases n - i,
        {
            let c = chunks[i];
            assert(c@ == cs[i as int]);
            self.chunk_features.push(xxh32(c));
            i = i + 1;
            assert(self.chunk_features@ =~= done0.map_values(|c: Seq<u8>| xxh32_of(c)) + cs.subrange(
                0,
                i as int,
            ).map_values(|c: Seq<u8>| xxh32_of(c)));
        }
        let last = chunks[n - 1];
        assert(last@ == cs.last());
        assert(cs.subrange(0, n - 1) =~= cs.drop_last());
        let tail = crate::bits::copy_range(last, 0, last.len());
        assert(last@.subrange(0, last@.len() as int) =~= last@);
        self.buf = tail;
        self.fed = Ghost(fed0 + data@);
        self.done = Ghost(done0 + cs.drop_last());
        proof {
            assert(self.chunk_features@ =~= self.done@.map_values(|c: Seq<u8>| xxh32_of(c)));
            if all.len() > 0 {
                crate::cdc::lemma_last_chunk_alone(all, a);
                assert(cs.drop_last().push(cs.last()) =~= cs);
                if fed0.len() > 0 {
                    crate::cdc::lemma_chunks_append(fed0, data@, a);
                    assert(chunks_of(fed0, false, a).drop_last() =~= done0);
                    assert(chunks_of(fed0, false, a).last() == buf0);
                    assert(self.done@.push(self.buf@) =~= done0 + cs);
                } else {
                    assert(buf0.len() == 0);
                    assert(all =~= data@);
                    assert(fed0 + data@ =~= data@);
                    assert(self.done@ =~= cs.drop_last());
                }
            } else {
                assert(fed0.len() == 0);
                assert(cs =~= seq![Seq::<u8>::empty()]);
                assert(self.done@ =~= Seq::<Seq<u8>>::empty());
                assert(fed0 + data@ =~= Seq::<u8>::empty());
            }
        }
    }

    /// The Data-Code of all bytes fed, as `gen_data_code_v0` gives it for them.
    pub fn finalize(self, bits: u32) -> (r: Result<DataCodeResult, IsccError>)
        requires
            self.wf(),
        ensures
            r is Ok <==> encodable(MainType::Data, bits as nat),
            r is Ok ==> r->Ok_0.iscc@ == iscc_prefix() + component_text(
                MainType::Data,
                SubType::Unspecified,
                bits as nat,
                minhash_digest(data_features(self.input())),
            ),
    {
        let ghost done = self.done@;
        let mut features = self.chunk_features;
        if self.buf.len() > 0 {
            features.push(xxh32(self.buf.as_slice()));
            assert(features@ =~= done.push(self.buf@).map_values(|c: Seq<u8>| xxh32_of(c)));
        } else if features.len() == 0 {
            let empty: Vec<u8> = Vec::new();
            features.push(xxh32(empty.as_slice()));
            assert(features@ =~= seq![xxh32_of(Seq::<u8>::empty())]);
            assert(cdc_chunks(self.fed@, false, DATA_AVG_CHUNK_SIZE as nat) =~= seq![
                Seq::<u8>::empty(),
            ]);
        }
        assert(features@ =~= data_features(self.fed@));
        let digest = alg_minhash_256(features.as_slice());
        let component = encode_component(
            MainType::Data,
            SubType::Unspecified,
            Version::V0,
            bits,
            digest.as_slice(),
        )?;
        Ok(DataCodeResult { iscc: with_prefix(component.as_str()) })
    }
}

impl Default for DataHasher {
    /// A hasher that has been fed nothing.
    fn default() -> (r: DataHasher)
        ensures
            r.wf(),
            r.input() == Seq::<u8>::empty(),
    {
        DataHasher::new()
    }
}

} // verus!
