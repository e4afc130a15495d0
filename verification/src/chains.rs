//! Validation code and head data of the registered paras.

use crate::types::{BlockNumber, ParaId};
use std::collections::BTreeMap;
use vstd::laws_cmp::*;
use vstd::prelude::*;

verus! {

/// What is kept of the paras.
#[verifier::ext_equal]
pub struct ChainData {
    pub code: Map<ParaId, Seq<u8>>,
    pub heads: Map<ParaId, Seq<u8>>,
    pub watermarks: Map<ParaId, BlockNumber>,
}

impl ChainData {
    /// Nothing is kept.
    pub open spec fn empty() -> Self {
        ChainData { code: Map::empty(), heads: Map::empty(), watermarks: Map::empty() }
    }

    /// With code and head data for `id`.
    pub open spec fn initialized(self, id: ParaId, code: Seq<u8>, head: Seq<u8>) -> Self {
        ChainData {
            code: self.code.insert(id, code),
            heads: self.heads.insert(id, head),
            watermarks: self.watermarks,
        }
    }

    /// Without code and head data for `id`.
    pub open spec fn cleaned_up(self, id: ParaId) -> Self {
        ChainData {
            code: self.code.remove(id),
            heads: self.heads.remove(id),
            watermarks: self.watermarks,
        }
    }

    /// With `block` as the watermark of `id`.
    pub open spec fn watermarked(self, id: ParaId, block: BlockNumber) -> Self {
        ChainData { watermarks: self.watermarks.insert(id, block), ..self }
    }
}

/// Keeps the code and the head data of the paras.
pub struct Chains {
    code: BTreeMap<ParaId, Vec<u8>>,
    heads: BTreeMap<ParaId, Vec<u8>>,
    watermarks: BTreeMap<ParaId, BlockNumber>,
}

impl View for Chains {
    type V = ChainData;

    closed spec fn view(&self) -> ChainData {
        ChainData {
            code: self.code@.map_values(|v: Vec<u8>| v@),
            heads: self.heads@.map_values(|v: Vec<u8>| v@),
            watermarks: self.watermarks@,
        }
    }
}

impl Chains {
    /// Keeps nothing yet.
    pub fn new() -> (r: Self)
        ensures
            r@ == ChainData::empty(),
    {
        let r = Chains {
            code: BTreeMap::new(),
            heads: BTreeMap::new(),
            watermarks: BTreeMap::new(),
        };
        assert(r@ =~= ChainData::empty());
        r
    }

    /// Sets the code and the head data of `id`.
    pub fn initialize_para(&mut self, id: ParaId, code: Vec<u8>, initial_head_data: Vec<u8>)
        ensures
            final(self)@ == old(self)@.initialized(id, code@, initial_head_data@),
    {
        broadcast use group_laws_cmp;

        let ghost goal = self@.initialized(id, code@, initial_head_data@);
        self.code.insert(id, code);
        self.heads.insert(id, initial_head_data);
        assert(self@ =~= goal);
    }

    /// Forgets the code and the head data of `id`.
    pub fn cleanup_para(&mut self, id: ParaId)
        ensures
            final(self)@ == old(self)@.cleaned_up(id),
    {
        broadcast use group_laws_cmp;

        let ghost goal = self@.cleaned_up(id);
        self.code.remove(&id);
        self.heads.remove(&id);
        assert(self@ =~= goal);
    }

    /// Sets the watermark of `id`: the block up to which its messages were handled.
    pub fn set_watermark(&mut self, id: ParaId, block: BlockNumber)
        ensures
            final(self)@ == old(self)@.watermarked(id, block),
    {
        broadcast use group_laws_cmp;

        let ghost goal = self@.watermarked(id, block);
        self.watermarks.insert(id, block);
        assert(self@ =~= goal);
    }

    /// The validation code of `id`.
    pub fn parachain_code(&self, id: ParaId) -> (r: Option<&Vec<u8>>)
        ensures
            match r {
                Some(code) => self@.code.contains_key(id) && code@ == self@.code[id],
                None => !self@.code.contains_key(id),
            },
    {
        broadcast use group_laws_cmp;

        self.code.get(&id)
    }

    /// The head data of `id`.
    pub fn parachain_head(&self, id: ParaId) -> (r: Option<&Vec<u8>>)
        ensures
            match r {
                Some(head) => self@.heads.contains_key(id) && head@ == self@.heads[id],
                None => !self@.heads.contains_key(id),
            },
    {
        broadcast use group_laws_cmp;

        self.heads.get(&id)
    }

    /// The watermark of `id`.
    pub fn watermark(&self, id: ParaId) -> (r: Option<BlockNumber>)
        ensures
            r == (if self@.watermarks.contains_key(id) {
                Some(self@.watermarks[id])
            } else {
                None
            }),
    {
        broadcast use group_laws_cmp;

        match self.watermarks.get(&id) {
            Some(block) => Some(*block),
            None => None,
        }
    }
}

} // verus!
