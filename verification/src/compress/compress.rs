//! The choice of a codec. Data is tried with each codec in a fixed order and
//! keeps the first encoding that pays: one that saves at least a page and at
//! least a tenth.

use vstd::prelude::*;

verus! {

/// A way to store data.
#[derive(Copy, Clone, Debug, PartialEq, Eq, Structural)]
pub enum CompressType {
    Huffman,
    Snappy,
    /// As it is, with no codec.
    Raw,
}

/// A codec. What it makes of the bytes is its own business.
pub trait Compress {
    fn decode(&mut self, bytes: &[u8]) -> Vec<u8>;

    fn encode(&mut self, bytes: &[u8]) -> Vec<u8>;

    /// The score of the codec.
    fn coefficient(&self) -> u8;
}

/// `score` is the score of the way `kind` to store data, with the codecs
/// `huffman` and `snappy`: what the codec that `kind` names gives as its
/// coefficient, and 1 for storing the data as it is.
pub open spec fn is_score_of<H: Compress, S: Compress>(
    huffman: &H,
    snappy: &S,
    kind: CompressType,
    score: u8,
) -> bool {
    match kind {
        CompressType::Huffman => call_ensures(H::coefficient, (huffman,), score),
        CompressType::Snappy => call_ensures(S::coefficient, (snappy,), score),
        CompressType::Raw => score == 1,
    }
}

/// `out` is an encoding of `bytes` by the codec that stands as `before`:
/// what the codec's `encode` gave for them.
pub open spec fn is_encoding<C: Compress>(before: C, bytes: &[u8], out: Vec<u8>) -> bool {
    exists|codec: &mut C|
        *codec == before && #[trigger] call_ensures(C::encode, (codec, bytes), out)
}

/// The codec that stands as `before` gave an encoding of `bytes` that was
/// not accepted under `kind`.
pub open spec fn is_refused_encoding<C: Compress>(
    before: C,
    bytes: &[u8],
    kind: CompressType,
) -> bool {
    exists|out: Vec<u8>|
        #[trigger] is_encoding(before, bytes, out) && !is_accepted(
            bytes@.len(),
            out@.len(),
            kind,
        )
}

/// `except` names `kind`.
pub open spec fn is_excepted(except: Seq<CompressType>, kind: CompressType) -> bool {
    exists|i: int| 0 <= i < except.len() && #[trigger] except[i] == kind
}

/// The first of Huffman, Snappy and raw that `except` does not name; raw
/// where it names all.
pub open spec fn next_compress_type(except: Seq<CompressType>) -> CompressType {
    if !is_excepted(except, CompressType::Huffman) {
        CompressType::Huffman
    } else if !is_excepted(except, CompressType::Snappy) {
        CompressType::Snappy
    } else {
        CompressType::Raw
    }
}

/// Whether an encoding of `encoded` bytes pays for data of `plain` bytes
/// under `kind`. Storing the data as it is always pays. A codec's encoding
/// pays when it does not have the page count of the data (a page is 4096
/// bytes) and the size of the data, in hundredths of the encoding's, is at
/// most 90.
pub open spec fn encoding_pays(plain: nat, encoded: nat, kind: CompressType) -> bool {
    if kind == CompressType::Raw {
        true
    } else if plain / 4096 == encoded / 4096 {
        false
    } else {
        plain * 100 / encoded <= 90
    }
}

/// Whether the judgement of an encoding can be made: a codec's encoding
/// that is not on the same page count as the data is not empty.
pub open spec fn can_judge(plain: nat, encoded: nat, kind: CompressType) -> bool {
    kind != CompressType::Raw && plain / 4096 != encoded / 4096 ==> encoded > 0
}

/// Whether an encoding of `encoded` bytes is accepted for data of `plain`
/// bytes under `kind`: it can be judged, and it pays.
pub open spec fn is_accepted(plain: nat, encoded: nat, kind: CompressType) -> bool {
    can_judge(plain, encoded, kind) && encoding_pays(plain, encoded, kind)
}

/// A copy of `bytes`.
fn copy_of(bytes: &[u8]) -> (v: Vec<u8>)
    ensures
        v@ == bytes@,
{
    let mut v: Vec<u8> = Vec::new();
    let mut i: usize = 0;
    while i < bytes.len()
        invariant
            i <= bytes@.len(),
            v@.len() == i,
            forall|j: int| 0 <= j < i ==> v@[j] == bytes@[j],
        decreases bytes@.len() - i,
    {
        v.push(bytes[i]);
        i = i + 1;
    }
    assert(v@ =~= bytes@);
    v
}

/// Chooses the codec for each piece of data among a Huffman codec, a Snappy
/// codec and none at all.
pub struct CompressManager<H: Compress, S: Compress> {
    pub effect_huffman: u8,
    pub effect_snappy: u8,
    pub huffman: H,
    pub snappy: S,
}

impl<H: Compress, S: Compress> CompressManager<H, S> {
    /// A manager over the two codecs.
    pub fn new(huffman: H, snappy: S) -> (manager: Self)
        ensures
            manager.effect_huffman == 0,
            manager.effect_snappy == 0,
            manager.huffman == huffman,
            manager.snappy == snappy,
    {
        CompressManager { effect_huffman: 0, effect_snappy: 0, huffman, snappy }
    }

    /// Encodes `bytes` with the first of Huffman, Snappy and none whose
    /// encoding is accepted, and says which it was: Huffman is tried first,
    /// Snappy where the Huffman encoding was refused, and the bytes are stored
    /// as they are where both were. A codec that is not tried is left as it
    /// stands.
    pub fn encode(&mut self, bytes: &[u8]) -> (r: (Vec<u8>, CompressType))
        requires
            bytes@.len() * 100 <= usize::MAX,
        ensures
            is_accepted(bytes@.len(), r.0@.len(), r.1),
            r.1 == CompressType::Huffman ==> is_encoding(old(self).huffman, bytes, r.0) && final(self).snappy == old(self).snappy,
            r.1 == CompressType::Snappy ==> is_refused_encoding(
                old(self).huffman,
                bytes,
                CompressType::Huffman,
            ) && is_encoding(old(self).snappy, bytes, r.0),
            r.1 == CompressType::Raw ==> is_refused_encoding(
                old(self).huffman,
                bytes,
                CompressType::Huffman,
            ) && is_refused_encoding(
                old(self).snappy,
                bytes,
                CompressType::Snappy,
            ) && r.0@ == bytes@,
            final(self).effect_huffman == old(self).effect_huffman,
            final(self).effect_snappy == old(self).effect_snappy,
    {
        let mut used_algorithm: Vec<CompressType> = Vec::new();
        let mut round: u8 = 0;
        while round < 2
            invariant
                round <= 2,
                bytes@.len() * 100 <= usize::MAX,
                self.effect_huffman == old(self).effect_huffman,
                self.effect_snappy == old(self).effect_snappy,
                round == 0 ==> used_algorithm@.len() == 0 && self.huffman == old(self).huffman,
                round <= 1 ==> self.snappy == old(self).snappy,
                round == 1 ==> used_algorithm@ == seq![CompressType::Huffman],
                round == 2 ==> used_algorithm@ == seq![CompressType::Huffman, CompressType::Snappy],
                round >= 1 ==> is_refused_encoding(
                old(self).huffman,
                    bytes,
                    CompressType::Huffman,
                ),
                round == 2 ==> is_refused_encoding(
                old(self).snappy,
                    bytes,
                    CompressType::Snappy,
                ),
            decreases 2 - round,
        {
            let ghost tried = used_algorithm@;
            let compress_type = self.choose_compress_type_except(&used_algorithm);
            proof {
                if round == 1 {
                    assert(tried[0] == CompressType::Huffman);
                    assert(is_excepted(tried, CompressType::Huffman));
                    assert(compress_type == CompressType::Snappy);
                } else {
                    assert(compress_type == CompressType::Huffman);
                }
            }
            let result: Vec<u8> = match compress_type {
                CompressType::Huffman => {
                    let out = self.huffman.encode(bytes);
                    proof {
                        assert(is_encoding(
                old(self).huffman, bytes, out));
                    }
                    out
                },
                CompressType::Snappy => {
                    let out = self.snappy.encode(bytes);
                    proof {
                        assert(is_encoding(
                old(self).snappy, bytes, out));
                    }
                    out
                },
                CompressType::Raw => copy_of(bytes),
            };
            used_algorithm.push(compress_type);
            if Self::encoding_accepted(bytes, &result, compress_type) {
                return (result, compress_type);
            }
            proof {
                if round == 0 {
                    assert(used_algorithm@ =~= seq![CompressType::Huffman]);
                } else {
                    assert(used_algorithm@ =~= seq![CompressType::Huffman, CompressType::Snappy]);
                }
            }
            round = round + 1;
        }
        (copy_of(bytes), CompressType::Raw)
    }

    /// Encodes `bytes` with the codec that `compress_type` names; none gives
    /// a copy.
    pub fn encode_with_type(&mut self, bytes: &[u8], compress_type: CompressType) -> (r: Vec<u8>)
        ensures
            compress_type == CompressType::Raw ==> r@ == bytes@,
            compress_type == CompressType::Huffman ==> is_encoding(
                old(self).huffman,
                bytes,
                r,
            ),
            compress_type == CompressType::Snappy ==> is_encoding(
                old(self).snappy,
                bytes,
                r,
            ),
            final(self).effect_huffman == old(self).effect_huffman,
            final(self).effect_snappy == old(self).effect_snappy,
    {
        match compress_type {
            CompressType::Huffman => self.huffman.encode(bytes),
            CompressType::Snappy => self.snappy.encode(bytes),
            CompressType::Raw => copy_of(bytes),
        }
    }

    /// Decodes `bytes` with the codec that `compress_type` names; none gives
    /// a copy.
    pub fn decode(&mut self, bytes: &[u8], compress_type: CompressType) -> (r: Vec<u8>)
        ensures
            compress_type == CompressType::Raw ==> r@ == bytes@,
            final(self).effect_huffman == old(self).effect_huffman,
            final(self).effect_snappy == old(self).effect_snappy,
    {
        match compress_type {
            CompressType::Huffman => self.huffman.decode(bytes),
            CompressType::Snappy => self.snappy.decode(bytes),
            CompressType::Raw => copy_of(bytes),
        }
    }

    /// The first of Huffman, Snappy and none that `except` does not name.
    pub fn choose_compress_type_except(&self, except: &Vec<CompressType>) -> (kind: CompressType)
        ensures
            kind == next_compress_type(except@),
    {
        let mut has_huffman: bool = false;
        let mut has_snappy: bool = false;
        let mut i: usize = 0;
        while i < except.len()
            invariant
                i <= except@.len(),
                has_huffman == is_excepted(except@.take(i as int), CompressType::Huffman),
                has_snappy == is_excepted(except@.take(i as int), CompressType::Snappy),
            decreases except@.len() - i,
        {
            let ghost before = except@.take(i as int);
            let ghost after = except@.take(i + 1);
            proof {
                assert(after =~= before.push(except@[i as int]));
                assert forall|kind: CompressType|
                    is_excepted(after, kind) <==> (is_excepted(before, kind) || except@[i as int]
                        == kind) by {
                    if is_excepted(before, kind) {
                        let k = choose|k: int| 0 <= k < before.len() && #[trigger] before[k] == kind;
                        assert(after[k] == kind);
                    }
                    if except@[i as int] == kind {
                        assert(after[i as int] == kind);
                    }
                    if is_excepted(after, kind) {
                        let k = choose|k: int| 0 <= k < after.len() && #[trigger] after[k] == kind;
                        if k < i {
                            assert(before[k] == kind);
                        }
                    }
                }
            }
            match except[i] {
                CompressType::Huffman => {
                    has_huffman = true;
                },
                CompressType::Snappy => {
                    has_snappy = true;
                },
                CompressType::Raw => {},
            }
            i = i + 1;
        }
        assert(except@.take(i as int) =~= except@);
        if !has_huffman {
            return CompressType::Huffman;
        }
        if !has_snappy {
            return CompressType::Snappy;
        }
        CompressType::Raw
    }

    /// The score of the codec that `compress_type` names; 1 for none.
    pub fn get_compress_type_score(&self, compress_type: CompressType) -> (score: u8)
        ensures
            is_score_of(&self.huffman, &self.snappy, compress_type, score),
    {
        match compress_type {
            CompressType::Huffman => self.huffman.coefficient(),
            CompressType::Snappy => self.snappy.coefficient(),
            CompressType::Raw => 1,
        }
    }

    /// Whether the encoding `data` of `o_data` under `compress_type` can be
    /// judged and pays.
    pub fn encoding_accepted(o_data: &[u8], data: &Vec<u8>, compress_type: CompressType) -> (r:
        bool)
        requires
            o_data@.len() * 100 <= usize::MAX,
        ensures
            r == is_accepted(o_data@.len(), data@.len(), compress_type),
    {
        let judged: bool = match compress_type {
            CompressType::Raw => true,
            _ => o_data.len() / 4096 == data.len() / 4096 || data.len() > 0,
        };
        judged && Self::judge_encode_effect(o_data, data, compress_type)
    }

    /// Whether the encoding `data` of `o_data` under `compress_type` pays.
    pub fn judge_encode_effect(o_data: &[u8], data: &Vec<u8>, compress_type: CompressType) -> (r:
        bool)
        requires
            o_data@.len() * 100 <= usize::MAX,
            can_judge(o_data@.len(), data@.len(), compress_type),
        ensures
            r == encoding_pays(o_data@.len(), data@.len(), compress_type),
    {
        match compress_type {
            CompressType::Raw => {
                return true;
            },
            _ => {},
        }
        if o_data.len() / 4096 == data.len() / 4096 {
            return false;
        }
        let coeffi: usize = o_data.len() * 100 / data.len();
        if coeffi > 90 {
            return false;
        }
        true
    }
}

} // verus!
