//! Saving and loading tokenizers.
use crate::added;
use crate::automaton;
use crate::bytes::to_vec;
use crate::charsmap;
use crate::charsmap::PrecompiledCharsmap;
use crate::decoder;
use crate::decoder::{check_offsets, Decoder, DecoderType};
use crate::encoder;
use crate::encoder::backtracking;
use crate::encoder::backtracking::{pack_pair, BacktrackingBytePairEncoder};
use crate::encoder::{Encoder, EncoderType};
use crate::maps;
use crate::normalizer::{MetaspacePrepend, Normalizer};
use crate::postprocessor::PostProcessor;
use crate::pretok;
use crate::serde::added_section;
use crate::serde::added_section::{deserialize_added_tokens, serialize_added_tokens};
use crate::serde::codec;
use crate::serde::codec::{
    deserialize_decoder, deserialize_prefix_match, deserialize_splits, serialize_prefix_match,
    serialize_splits, serialize_vocab_decoder,
};
use crate::serde::frame;
use crate::serde::frame::{read_header, read_sections, write_file, Header, NO_PAD, VERSION};
use crate::serde::post;
use crate::serde::SerdeError;
use crate::tokenizer;
use crate::tokenizer::model;
use crate::tokenizer::model::Pipeline;
use crate::tokenizer::Tokenizer;
use crate::types::{Split, TokenId};
use std::sync::Arc;
use vstd::prelude::*;
use vstd::slice::*;

verus! {

// ---- normalizers ----

/// The number that stands for a normalizer.
pub open spec fn normalizer_id(n: Normalizer) -> u32 {
    match n {
        Normalizer::Absent => 0,
        Normalizer::BertUncased => 1,
        Normalizer::BertCased => 2,
        Normalizer::Nfc => 3,
        Normalizer::Metaspace(MetaspacePrepend::Unconditional) => 4,
        Normalizer::SentencePiece => 5,
        Normalizer::SentencePieceLowercase => 6,
        Normalizer::MetaspaceReplace => 7,
        Normalizer::SentencePiecePrecompiled { whitespace_split, .. } => if whitespace_split {
            8
        } else {
            9
        },
        Normalizer::Metaspace(MetaspacePrepend::IfNotSpaceLed) => 10,
        Normalizer::Metaspace(MetaspacePrepend::FirstSegment) => 11,
    }
}

/// The charsmap blob of a normalizer, if it has one.
pub open spec fn charsmap_bytes(n: Normalizer) -> Seq<u8> {
    match n {
        Normalizer::SentencePiecePrecompiled { charsmap, .. } => charsmap.raw(),
        _ => seq![],
    }
}

/// The normalizer goes by a charsmap.
pub open spec fn has_charsmap(id: u32) -> bool {
    id == 8 || id == 9 || id == 12
}

/// A normalizer is known by its number and its charsmap.
pub proof fn law_normalizer_is_its_id(a: Normalizer, b: Normalizer)
    requires
        normalizer_id(a) == normalizer_id(b),
        charsmap_bytes(a) == charsmap_bytes(b),
    ensures
        forall|s: Seq<char>, first: bool| a.segment_form(s, first) == b.segment_form(s, first),
{
    assert forall|s: Seq<char>, first: bool| a.segment_form(s, first) == b.segment_form(
        s,
        first,
    ) by {}
}

impl Normalizer {
    /// The normalizer that a number stands for, where it needs no charsmap.
    pub fn from_u32(v: u32) -> (r: Option<Self>)
        ensures
            match r {
                Some(n) => normalizer_id(n) == v && !has_charsmap(v) && charsmap_bytes(n).len() == 0
                    && n.wf(),
                None => has_charsmap(v) || v > 12,
            },
    {
        match v {
            0 => Some(Normalizer::Absent),
            1 => Some(Normalizer::BertUncased),
            2 => Some(Normalizer::BertCased),
            3 => Some(Normalizer::Nfc),
            4 => Some(Normalizer::Metaspace(MetaspacePrepend::Unconditional)),
            5 => Some(Normalizer::SentencePiece),
            6 => Some(Normalizer::SentencePieceLowercase),
            7 => Some(Normalizer::MetaspaceReplace),
            10 => Some(Normalizer::Metaspace(MetaspacePrepend::IfNotSpaceLed)),
            11 => Some(Normalizer::Metaspace(MetaspacePrepend::FirstSegment)),
            _ => None,
        }
    }

    /// The number that stands for the normalizer in a file.
    pub fn to_u32(&self) -> (r: u32)
        ensures
            r == normalizer_id(*self),
    {
        match self {
            Normalizer::Absent => 0,
            Normalizer::BertUncased => 1,
            Normalizer::BertCased => 2,
            Normalizer::Nfc => 3,
            Normalizer::Metaspace(MetaspacePrepend::Unconditional) => 4,
            Normalizer::SentencePiece => 5,
            Normalizer::SentencePieceLowercase => 6,
            Normalizer::MetaspaceReplace => 7,
            Normalizer::SentencePiecePrecompiled { whitespace_split, .. } => if *whitespace_split {
                8
            } else {
                9
            },
            Normalizer::Metaspace(MetaspacePrepend::IfNotSpaceLed) => 10,
            Normalizer::Metaspace(MetaspacePrepend::FirstSegment) => 11,
        }
    }
}

/// What is wrong with the normalizer of a file. The punctuation-padding chain
/// has no normalizer here.
pub open spec fn normalizer_error(id: u32, d: Seq<u8>) -> Option<SerdeError> {
    if has_charsmap(id) && charsmap::blob_error(d) is Some {
        Some(SerdeError::InvalidData("invalid precompiled charsmap"))
    } else if id >= 12 {
        Some(SerdeError::InvalidNormalizer(id))
    } else {
        None
    }
}

/// The normalizer of a file.
fn read_normalizer(id: u32, data: &[u8]) -> (r: Result<Normalizer, SerdeError>)
    ensures
        match r {
            Ok(n) => {
                &&& normalizer_error(id, data@) is None
                &&& n.wf()
                &&& normalizer_id(n) == id
                &&& charsmap_bytes(n) == if has_charsmap(id) {
                    data@
                } else {
                    seq![]
                }
            },
            Err(e) => normalizer_error(id, data@) == Some(e),
        },
{
    if id == 8 || id == 9 || id == 12 {
        match PrecompiledCharsmap::from_blob(data) {
            Ok(m) => {
                if id == 12 {
                    return Err(SerdeError::InvalidNormalizer(id));
                }
                Ok(
                    Normalizer::SentencePiecePrecompiled {
                        charsmap: Arc::new(m),
                        whitespace_split: id == 8,
                    },
                )
            },
            Err(_) => Err(SerdeError::InvalidData("invalid precompiled charsmap")),
        }
    } else {
        match Normalizer::from_u32(id) {
            Some(n) => {
                assert(charsmap_bytes(n) =~= seq![]);
                Ok(n)
            },
            None => Err(SerdeError::InvalidNormalizer(id)),
        }
    }
}

// ---- pairs ----

/// The pairs that the splits of the tokens from `base` up to `n` merge; a
/// token that is split into itself is no merge.
pub open spec fn pairs_of(splits: Seq<Split>, base: int, n: int) -> Map<u64, TokenId>
    decreases n,
{
    if n <= base || n <= 0 {
        Map::empty()
    } else {
        let before = pairs_of(splits, base, n - 1);
        let s = splits[n - 1];
        let id = (n - 1) as u32;
        if s.left == id && s.right == id {
            before
        } else {
            before.insert(backtracking::packed(s.left, s.right), id)
        }
    }
}

/// The pairs depend on the splits they are taken from alone.
proof fn lemma_pairs_of(a: Seq<Split>, b: Seq<Split>, base: int, n: int)
    requires
        0 <= n <= a.len(),
        n <= b.len(),
        forall|i: int| 0 <= i < n ==> #[trigger] a[i] == b[i],
    ensures
        pairs_of(a, base, n) == pairs_of(b, base, n),
    decreases n,
{
    if n > 0 {
        lemma_pairs_of(a, b, base, n - 1);
        assert(a[n - 1] == b[n - 1]);
    }
}

/// The pairs are those of the splits.
pub open spec fn pairs_are_of_splits(r: backtracking::Rules, base: int) -> bool {
    &&& r.splits.len() == r.vocab.len()
    &&& base <= r.vocab.len()
    &&& r.pairs == pairs_of(r.splits, base, r.splits.len() as int)
}

proof fn lemma_pairs_with_added(
    r: backtracking::Rules,
    added: Seq<(u32, Seq<u8>)>,
    i: int,
    limit: int,
    base: int,
)
    requires
        0 <= i <= added.len(),
        0 <= base,
        pairs_are_of_splits(r, base),
        r.vocab.len() + added.len() - i <= u32::MAX,
    ensures
        pairs_are_of_splits(backtracking::with_added(r, added, i, limit).0, base),
    decreases added.len() - i,
{
    if i < added.len() && added[i].0 <= limit {
        let q = backtracking::with_base(r, added[i].1);
        lemma_pairs_of(r.splits, q.splits, base, r.splits.len() as int);
        lemma_pairs_with_added(q, added, i + 1, limit, base);
    }
}

proof fn lemma_pairs_merged(
    base: Seq<Seq<u8>>,
    added: Seq<(u32, Seq<u8>)>,
    merges: Seq<(TokenId, TokenId)>,
)
    requires
        backtracking::merges_ok(base, added, merges),
        base.len() + added.len() + merges.len() <= u32::MAX,
    ensures
        ({
            let (r, i) = backtracking::merged_rules(base, added, merges);
            &&& pairs_are_of_splits(r, base.len() as int)
            &&& 0 <= i <= added.len()
            &&& r.vocab.len() == base.len() + merges.len() + i
        }),
    decreases merges.len(),
{
    let n = base.len() as int;
    if merges.len() == 0 {
        let r = backtracking::base_rules(base);
        assert(r.pairs =~= pairs_of(r.splits, n, n));
    } else {
        let front = merges.drop_last();
        lemma_pairs_merged(base, added, front);
        let (b, k) = backtracking::merged_rules(base, added, front);
        let limit = b.vocab.len() as int;
        lemma_pairs_with_added(b, added, k, limit, n);
        backtracking::lemma_with_added(b, added, k, limit);
        let r = backtracking::with_added(b, added, k, limit).0;
        let q = backtracking::with_merge(r, merges.last());
        lemma_pairs_of(r.splits, q.splits, n, r.splits.len() as int);
    }
}

/// An encoder that is built from merges has the pairs of its splits, so that
/// its file says all of it.
pub proof fn law_built_pairs(
    base: Seq<Seq<u8>>,
    added: Seq<(u32, Seq<u8>)>,
    merges: Seq<(TokenId, TokenId)>,
)
    requires
        backtracking::merges_ok(base, added, merges),
        base.len() + added.len() + merges.len() <= u32::MAX,
    ensures
        pairs_are_of_splits(backtracking::built_rules(base, added, merges), base.len() as int),
{
    lemma_pairs_merged(base, added, merges);
    let (b, k) = backtracking::merged_rules(base, added, merges);
    lemma_pairs_with_added(b, added, k, u32::MAX as int, base.len() as int);
}

/// Rebuild the pairs from the split table.
pub fn rebuild_pair_lookup(splits: &[Split], num_base_tokens: usize) -> (m: foldhash::HashMap<
    u64,
    TokenId,
>)
    ensures
        maps::pair_map(m) == pairs_of(splits@, num_base_tokens as int, splits@.len() as int),
{
    let mut m = maps::new_pair_map();
    let mut id: usize = num_base_tokens;
    assert(maps::pair_map(m) =~= Map::empty());
    while id < splits.len()
        invariant
            num_base_tokens <= id,
            maps::pair_map(m) == pairs_of(splits@, num_base_tokens as int, id as int),
            id <= splits@.len() || maps::pair_map(m) == pairs_of(
                splits@,
                num_base_tokens as int,
                splits@.len() as int,
            ),
        decreases splits.len() - id,
    {
        let s = splits[id];
        if !(s.left == id as TokenId && s.right == id as TokenId) {
            maps::pair_map_insert(&mut m, pack_pair(s.left, s.right), id as TokenId);
        }
        id = id + 1;
    }
    m
}

// ---- saving ----

impl Tokenizer {
    /// The nine numbers of its file.
    pub open spec fn saved_meta(&self) -> Seq<u32> {
        let n = self.pipeline().rules.vocab.len();
        let base = self.encoder_part().base_tokens();
        seq![
            VERSION,
            encoder::encoder_id(self.encoder_part().kind()),
            pretok::pretok_id(self.pretok_type()),
            normalizer_id(self.pipeline().normalizer),
            post::post_id(self.post()),
            n as u32,
            (n - base) as u32,
            base as u32,
            match self.pad_token() {
                Some(id) => id,
                None => NO_PAD,
            },
        ]
    }

    /// The sections of its file.
    pub open spec fn saved_sections(&self) -> Seq<Seq<u8>> {
        seq![
            codec::vocab_bytes(
                self.decoder_part().vocabulary().starts(),
                self.decoder_part().vocabulary().buffer(),
            ),
            codec::words_bytes(codec::split_words(self.pipeline().rules.splits)),
            automaton::matcher_bytes(self.encoder_part().automaton()),
            codec::words_bytes(self.encoder_part().prefixes()),
            codec::words_bytes(post::post_words(self.post())),
            charsmap_bytes(self.pipeline().normalizer),
            added_section::section_bytes(
                added_section::entries_of(
                    self.pipeline().added,
                    added_section::special_views(self.specials()),
                ),
            ),
        ]
    }

    /// Its file.
    pub open spec fn saved(&self) -> Seq<u8> {
        frame::file_bytes(self.saved_meta(), self.saved_sections())
    }

    /// It has no more base tokens than tokens, and its file is not too long
    /// for its offsets.
    pub open spec fn saveable(&self) -> bool {
        &&& self.encoder_part().base_tokens() <= self.pipeline().rules.vocab.len()
        &&& self.saved().len() <= u32::MAX
    }

    /// Save the tokenizer: the bytes of its file.
    pub fn save(&self) -> (r: Vec<u8>)
        requires
            self.wf(),
            self.saveable(),
        ensures
            r@ == self.saved(),
    {
        match self.try_save() {
            Some(d) => d,
            None => Vec::new(),
        }
    }

    /// [`Self::save`] where the tokenizer can be saved.
    pub fn try_save(&self) -> (r: Option<Vec<u8>>)
        requires
            self.wf(),
        ensures
            match r {
                Some(d) => self.saveable() && d@ == self.saved(),
                None => !self.saveable(),
            },
    {
        let encoder = self.encoder();
        let decoder = self.decoder();
        let n: usize = self.vocab_size();
        let base: usize = encoder.num_base_tokens();
        if base > n {
            return None;
        }
        proof {
            self.lemma_vocab_small();
            self.lemma_parts();
        }
        let token_data = serialize_vocab_decoder(decoder.vocab());
        let (merge_data, daac_data, prefix_data) = match encoder {
            Encoder::Backtracking(e) => (
                serialize_splits(e.split_table()),
                automaton::write_matcher(e.matcher()),
                serialize_prefix_match(e.next_prefix_match_table()),
            ),
        };
        let pp_data = self.post_processor().serialize();
        let charsmap_data: Vec<u8> = match self.normalizer() {
            Normalizer::SentencePiecePrecompiled { charsmap, .. } => to_vec(charsmap.blob()),
            _ => Vec::new(),
        };
        let added_data = serialize_added_tokens(self.added_tokens_raw(), self.special_tokens());
        let pad: u32 = match self.pad_token_id() {
            Some(id) => id,
            None => NO_PAD,
        };
        let meta: [u32; 9] = [
            VERSION,
            self.encoder_type().to_u32(),
            self.pretokenizer_type().to_u32(),
            self.normalizer().to_u32(),
            self.post_processor().type_id(),
            n as u32,
            (n - base) as u32,
            base as u32,
            pad,
        ];
        let mut sections: Vec<Vec<u8>> = Vec::new();
        sections.push(token_data);
        sections.push(merge_data);
        sections.push(daac_data);
        sections.push(prefix_data);
        sections.push(pp_data);
        sections.push(charsmap_data);
        sections.push(added_data);
        proof {
            assert(meta@ =~= self.saved_meta());
            assert(charsmap_data@ =~= charsmap_bytes(self.pipeline().normalizer));
            assert(frame::views(sections@) =~= self.saved_sections());
        }
        write_file(meta.as_slice(), sections.as_slice())
    }
}

// ---- loading ----

/// What is wrong with the sections that files of every kind have.
pub open spec fn shared_error(d: Seq<u8>) -> Option<SerdeError> {
    let n = frame::word(d, 6) as int;
    let tokens = frame::section(d, 0);
    if let Some(e) = normalizer_error(frame::word(d, 4), frame::section(d, 5)) {
        Some(e)
    } else if post::post_frame(frame::word(d, 5), frame::section(d, 4)) is None {
        Some(SerdeError::InvalidPostProcessor(frame::word(d, 5)))
    } else if let Some(e) = codec::vocab_error(tokens, n) {
        Some(e)
    } else if !decoder::offsets_fit(
        codec::vocab_starts(tokens, n),
        codec::vocab_data(tokens, n).len() as int,
    ) {
        Some(SerdeError::InvalidData("decoder offsets out of order"))
    } else {
        None
    }
}

/// What is wrong with the section of added tokens.
pub open spec fn added_error(d: Seq<u8>) -> Option<SerdeError> {
    if frame::word(d, 1) >= 13 {
        match added_section::entries_in(frame::section(d, 6)) {
            Ok(_) => None,
            Err(e) => Some(e),
        }
    } else {
        None
    }
}

/// What is wrong with the tables of a backtracking encoder.
pub open spec fn tables_error(d: Seq<u8>) -> Option<SerdeError> {
    if frame::section(d, 1).len() % 8 != 0 {
        Some(SerdeError::InvalidData("split data size not aligned"))
    } else if !automaton::matcher_readable(frame::section(d, 2)) {
        Some(SerdeError::InvalidData("failed to deserialize DAAC"))
    } else if frame::section(d, 3).len() % 4 != 0 {
        Some(SerdeError::InvalidData("prefix data size not aligned"))
    } else {
        None
    }
}

/// What is wrong with the sections of a file. An encoder other than the
/// backtracking one has no place here.
pub open spec fn content_error(d: Seq<u8>) -> Option<SerdeError> {
    if let Some(e) = shared_error(d) {
        Some(e)
    } else if frame::word(d, 2) != 0 {
        Some(SerdeError::InvalidEncoderType(frame::word(d, 2)))
    } else if let Some(e) = tables_error(d) {
        Some(e)
    } else {
        added_error(d)
    }
}

/// What is wrong with a file.
pub open spec fn load_error(d: Seq<u8>) -> Option<SerdeError> {
    if let Some(e) = frame::header_error(d) {
        Some(e)
    } else if let Some(e) = frame::sections_error(d, 0) {
        Some(e)
    } else {
        content_error(d)
    }
}

/// The entries of added and special tokens in a file.
pub open spec fn added_in(d: Seq<u8>) -> Seq<added_section::Entry> {
    if frame::word(d, 1) >= 13 {
        match added_section::entries_in(frame::section(d, 6)) {
            Ok(v) => v,
            Err(_) => seq![],
        }
    } else {
        seq![]
    }
}

/// The steps of encoding go by the vocabulary and the normalizer of a file.
pub open spec fn goes_by_file(p: Pipeline, d: Seq<u8>) -> bool {
    let n = frame::word(d, 6) as int;
    &&& p.rules.vocab == decoder::tokens_of(
        codec::vocab_data(frame::section(d, 0), n),
        codec::vocab_starts(frame::section(d, 0), n),
    )
    &&& normalizer_id(p.normalizer) == frame::word(d, 4)
    &&& charsmap_bytes(p.normalizer) == if has_charsmap(frame::word(d, 4)) {
        frame::section(d, 5)
    } else {
        seq![]
    }
}

/// The added tokens of a file have room in automata.
pub open spec fn added_fit_file(d: Seq<u8>) -> bool {
    let tokens = added_section::tokens_of(added_in(d));
    &&& tokens.len() <= u32::MAX
    &&& forall|p: Pipeline| #[trigger]
        goes_by_file(p, d) ==> tokens.len() == 0 || tokenizer::added_have_room(p, tokens)
}

/// Whether added tokens have room depends on the vocabulary and the
/// normalizer alone.
proof fn lemma_room(p: Pipeline, q: Pipeline, d: Seq<u8>, tokens: Seq<added::AddedView>)
    requires
        goes_by_file(p, d),
        goes_by_file(q, d),
        p.rules.vocab.len() <= u32::MAX,
    ensures
        tokenizer::added_have_room(p, tokens) == tokenizer::added_have_room(q, tokens),
{
    law_normalizer_is_its_id(p.normalizer, q.normalizer);
    tokenizer::law_patterns_alike(
        p.rules,
        q.rules,
        p.normalizer,
        q.normalizer,
        tokens,
        tokens,
        tokens.len() as int,
    );
}

impl Tokenizer {
    /// The tokenizer holds what the file says.
    pub open spec fn is_read_from(&self, d: Seq<u8>) -> bool {
        let n = frame::word(d, 6) as int;
        let splits = codec::splits_in(frame::section(d, 1));
        &&& self.pipeline().rules.splits == splits
        &&& self.pipeline().rules.pairs == pairs_of(
            splits,
            frame::word(d, 8) as int,
            splits.len() as int,
        )
        &&& self.encoder_part().base_tokens() == frame::word(d, 8)
        &&& self.encoder_part().prefixes() == codec::words_at(
            frame::section(d, 3),
            0,
            frame::section(d, 3).len() as int / 4,
        )
        &&& self.decoder_part().kind() == DecoderType::ByteLevel
        &&& self.decoder_part().vocabulary().starts() == codec::vocab_starts(
            frame::section(d, 0),
            n,
        )
        &&& self.decoder_part().vocabulary().buffer() == codec::vocab_data(frame::section(d, 0), n)
        &&& pretok::pretok_id(self.pretok_type()) == frame::word(d, 3)
        &&& self.pipeline().pretok == pretok::pretokenizer_of(self.pretok_type())
        &&& self.pipeline().workers == 1
        &&& normalizer_id(self.pipeline().normalizer) == frame::word(d, 4)
        &&& charsmap_bytes(self.pipeline().normalizer) == if has_charsmap(frame::word(d, 4)) {
            frame::section(d, 5)
        } else {
            seq![]
        }
        &&& post::post_id(self.post()) == frame::word(d, 5)
        &&& post::post_frame(frame::word(d, 5), frame::section(d, 4)) == Some(self.post().frame())
        &&& self.pad_token() == frame::pad_in(d)
        &&& self.pad_params() is None
        &&& self.cut_params() is None
        &&& self.pipeline().added == added_section::tokens_of(added_in(d))
        &&& added_section::special_views(self.specials()) == added_section::specials_of(
            added_in(d),
        )
        &&& self.from_added_file() == (frame::word(d, 1) >= 13)
    }

    /// The tokenizer is the other one, as far as a file tells. An added token
    /// that is listed as special is special, and the pairs are those of the
    /// splits.
    pub open spec fn restores(&self, o: Tokenizer) -> bool {
        let specials = added_section::special_views(o.specials());
        &&& self.pipeline().rules.vocab == o.pipeline().rules.vocab
        &&& self.pipeline().rules.splits == o.pipeline().rules.splits
        &&& self.pipeline().rules.pairs == pairs_of(
            o.pipeline().rules.splits,
            o.encoder_part().base_tokens() as int,
            o.pipeline().rules.splits.len() as int,
        )
        &&& self.encoder_part().base_tokens() == o.encoder_part().base_tokens()
        &&& self.decoder_part().tokens() == o.decoder_part().tokens()
        &&& self.pretok_type() == o.pretok_type()
        &&& self.pipeline().pretok == pretok::pretokenizer_of(o.pretok_type())
        &&& normalizer_id(self.pipeline().normalizer) == normalizer_id(o.pipeline().normalizer)
        &&& charsmap_bytes(self.pipeline().normalizer) == charsmap_bytes(o.pipeline().normalizer)
        &&& self.post().frame() == o.post().frame()
        &&& post::post_id(self.post()) == post::post_id(o.post())
        &&& self.pad_token() == if o.pad_token() == Some(NO_PAD) {
            None
        } else {
            o.pad_token()
        }
        &&& self.pipeline().added == Seq::new(
            o.pipeline().added.len(),
            |i: int| added_section::marked(o.pipeline().added[i], specials),
        )
        &&& self.from_added_file()
        &&& forall|k: int|
            0 <= k < specials.len() ==> added_section::special_views(self.specials()).contains(
                #[trigger] specials[k],
            )
        &&& added_section::tokens_distinct(o.pipeline().added) && specials.no_duplicates()
            && added_section::specials_agree(o.pipeline().added, specials)
            ==> added_section::special_views(self.specials()).to_multiset()
            == specials.to_multiset()
        &&& self.decoder_part().kind() == DecoderType::ByteLevel
        &&& self.pad_params() is None
        &&& self.cut_params() is None
    }
}

/// Nothing is wrong with a file, as far as its automaton is left aside.
spec fn in_order(d: Seq<u8>) -> bool {
    let n = frame::word(d, 6) as int;
    let tokens = frame::section(d, 0);
    &&& frame::header_error(d) is None
    &&& frame::sections_error(d, 0) is None
    &&& normalizer_error(frame::word(d, 4), frame::section(d, 5)) is None
    &&& post::post_frame(frame::word(d, 5), frame::section(d, 4)) is Some
    &&& codec::vocab_error(tokens, n) is None
    &&& decoder::offsets_fit(
        codec::vocab_starts(tokens, n),
        codec::vocab_data(tokens, n).len() as int,
    )
    &&& frame::word(d, 2) == 0
    &&& frame::section(d, 1).len() % 8 == 0
    &&& frame::section(d, 3).len() % 4 == 0
    &&& added_section::entries_in(frame::section(d, 6)) is Ok
}

/// What a saved file holds.
proof fn lemma_saved(o: Tokenizer)
    requires
        o.wf(),
        o.saveable(),
    ensures
        ({
            let d = o.saved();
            let n = frame::word(d, 6) as int;
            let specials = added_section::special_views(o.specials());
            &&& frame::header_error(d) is None
            &&& frame::sections_error(d, 0) is None
            &&& frame::offset(d, 0) == frame::HEADER_SIZE_V13
            &&& frame::word(d, 1) == VERSION
            &&& frame::word(d, 2) == 0
            &&& frame::word(d, 3) == pretok::pretok_id(o.pretok_type())
            &&& frame::word(d, 4) == normalizer_id(o.pipeline().normalizer)
            &&& normalizer_error(frame::word(d, 4), frame::section(d, 5)) is None
            &&& charsmap_bytes(o.pipeline().normalizer) == if has_charsmap(frame::word(d, 4)) {
                frame::section(d, 5)
            } else {
                seq![]
            }
            &&& frame::word(d, 5) == post::post_id(o.post())
            &&& post::post_frame(frame::word(d, 5), frame::section(d, 4)) == Some(o.post().frame())
            &&& codec::vocab_error(frame::section(d, 0), n) is None
            &&& codec::vocab_starts(frame::section(d, 0), n)
                == o.decoder_part().vocabulary().starts()
            &&& codec::vocab_data(frame::section(d, 0), n)
                == o.decoder_part().vocabulary().buffer()
            &&& decoder::offsets_fit(
                o.decoder_part().vocabulary().starts(),
                o.decoder_part().vocabulary().buffer().len() as int,
            )
            &&& decoder::tokens_of(
                o.decoder_part().vocabulary().buffer(),
                o.decoder_part().vocabulary().starts(),
            ) == o.pipeline().rules.vocab
            &&& frame::section(d, 1).len() % 8 == 0
            &&& codec::splits_in(frame::section(d, 1)) == o.pipeline().rules.splits
            &&& frame::section(d, 2) == automaton::matcher_bytes(o.encoder_part().automaton())
            &&& frame::section(d, 3).len() % 4 == 0
            &&& codec::words_at(frame::section(d, 3), 0, frame::section(d, 3).len() as int / 4)
                == o.encoder_part().prefixes()
            &&& frame::word(d, 8) == o.encoder_part().base_tokens()
            &&& frame::pad_in(d) == if o.pad_token() == Some(NO_PAD) {
                None
            } else {
                o.pad_token()
            }
            &&& added_section::entries_in(frame::section(d, 6)) == Ok::<
                Seq<added_section::Entry>,
                SerdeError,
            >(added_section::entries_of(o.pipeline().added, specials))
        }),
{
    let d = o.saved();
    let m = o.saved_meta();
    let s = o.saved_sections();
    o.lemma_vocab_small();
    o.lemma_parts();
    frame::law_file_is_read_back(m, s);
    assert(frame::word(d, 1) == m[0]);
    assert(frame::word(d, 2) == m[1]);
    assert(frame::word(d, 3) == m[2]);
    assert(frame::word(d, 4) == m[3]);
    assert(frame::word(d, 5) == m[4]);
    assert(frame::word(d, 6) == m[5]);
    assert(frame::word(d, 8) == m[7]);
    assert(frame::word(d, 9) == m[8]);
    assert forall|k: int| 0 <= k < 7 implies #[trigger] frame::section(d, k) == s[k] by {}
    assert(frame::section(d, 0) == s[0]);
    assert(frame::section(d, 1) == s[1]);
    assert(frame::section(d, 2) == s[2]);
    assert(frame::section(d, 3) == s[3]);
    assert(frame::section(d, 4) == s[4]);
    assert(frame::section(d, 5) == s[5]);
    assert(frame::section(d, 6) == s[6]);
    if let Normalizer::SentencePiecePrecompiled { charsmap, .. } = o.pipeline().normalizer {
        charsmap.lemma_blob();
    }
    post::law_post_is_read_back(o.post());
    let v = o.decoder_part().vocabulary();
    o.decoder_part().lemma_vocabulary();
    v.lemma_starts();
    assert(v.tokens() == o.pipeline().rules.vocab);
    assert(v.starts().len() == o.pipeline().rules.vocab.len() + 1);
    codec::law_vocab_is_read_back(v.starts(), v.buffer());
    codec::law_splits_are_read_back(o.pipeline().rules.splits);
    let p = o.encoder_part().prefixes();
    codec::lemma_words_len(p);
    codec::law_words_are_read_back(Seq::<u8>::empty(), p, Seq::<u8>::empty());
    assert(Seq::<u8>::empty() + codec::words_bytes(p) + Seq::<u8>::empty() =~= codec::words_bytes(
        p,
    ));
    let entries = added_section::entries_of(
        o.pipeline().added,
        added_section::special_views(o.specials()),
    );
    frame::lemma_section_len(m, s, 6);
    added_section::lemma_section_len(entries);
    added_section::law_entries_are_read_back(entries);
}

/// The tables of a tokenizer in order fit each other.
proof fn lemma_automaton(o: Tokenizer)
    requires
        o.wf(),
    ensures
        automaton::matcher_compiled(o.encoder_part().automaton()),
        automaton::kept(automaton::matcher_patterns(o.encoder_part().automaton()))
            == automaton::kept(backtracking::vocab_patterns(o.pipeline().rules.vocab)),
        backtracking::splits_ok(o.pipeline().rules.vocab, o.pipeline().rules.splits),
        backtracking::prefixes_ok(o.pipeline().rules.vocab, o.encoder_part().prefixes()),
        backtracking::tables_built(
            o.pipeline().rules.vocab,
            o.encoder_part().automaton(),
            o.encoder_part().prefixes(),
        ),
{
    o.lemma_parts();
    match o.encoder_part() {
        Encoder::Backtracking(e) => e.lemma_parts_fit(),
    }
}

/// The added tokens of a saved tokenizer have room when they are read.
proof fn lemma_added_room(t: Tokenizer, o: Tokenizer, tokens: Seq<added::AddedView>)
    requires
        o.wf(),
        t.pipeline().rules.vocab == o.pipeline().rules.vocab,
        normalizer_id(t.pipeline().normalizer) == normalizer_id(o.pipeline().normalizer),
        charsmap_bytes(t.pipeline().normalizer) == charsmap_bytes(o.pipeline().normalizer),
        tokens == added_section::tokens_of(
            added_section::entries_of(
                o.pipeline().added,
                added_section::special_views(o.specials()),
            ),
        ),
    ensures
        tokens.len() <= u32::MAX,
        tokenizer::added_have_room(t.pipeline(), tokens),
        tokenizer::with_added(t.pipeline(), tokens).raw == o.pipeline().raw,
        tokenizer::with_added(t.pipeline(), tokens).norm == o.pipeline().norm,
{
    o.lemma_parts();
    o.lemma_vocab_small();
    let a = o.pipeline().added;
    added_section::law_added_tokens_are_read_back(a, added_section::special_views(o.specials()));
    law_normalizer_is_its_id(t.pipeline().normalizer, o.pipeline().normalizer);
    tokenizer::law_patterns_alike(
        t.pipeline().rules,
        o.pipeline().rules,
        t.pipeline().normalizer,
        o.pipeline().normalizer,
        tokens,
        a,
        a.len() as int,
    );
}

/// The tokens of a vocabulary, as byte vectors.
fn token_vectors(offsets: &[u32], data: &[u8]) -> (r: Vec<Vec<u8>>)
    requires
        decoder::offsets_fit(offsets@, data@.len() as int),
    ensures
        backtracking::views(r@) == decoder::tokens_of(data@, offsets@),
{
    let n: usize = offsets.len() - 1;
    let mut out: Vec<Vec<u8>> = Vec::new();
    let mut i: usize = 0;
    while i < n
        invariant
            decoder::offsets_fit(offsets@, data@.len() as int),
            n == offsets@.len() - 1,
            i <= n,
            out@.len() == i,
            forall|k: int|
                0 <= k < i ==> (#[trigger] out@[k])@ == decoder::tokens_of(data@, offsets@)[k],
        decreases n - i,
    {
        let start: usize = offsets[i] as usize;
        let end: usize = offsets[i + 1] as usize;
        out.push(to_vec(slice_subrange(data, start, end)));
        i = i + 1;
    }
    assert(backtracking::views(out@) =~= decoder::tokens_of(data@, offsets@));
    out
}

/// The length of a vector is a machine number.
proof fn lemma_vec_len(v: Vec<u8>)
    ensures
        v@.len() <= usize::MAX,
{
    assert(v@.len() == v.len());
}

/// The lengths of byte vectors.
fn lengths_of(v: &Vec<Vec<u8>>) -> (r: Vec<usize>)
    ensures
        r@.len() == v@.len(),
        forall|i: int| 0 <= i < v@.len() ==> #[trigger] r@[i] == v@[i]@.len(),
{
    let mut out: Vec<usize> = Vec::new();
    let mut i: usize = 0;
    while i < v.len()
        invariant
            i <= v.len(),
            out@.len() == i,
            forall|k: int| 0 <= k < i ==> #[trigger] out@[k] == v@[k]@.len(),
        decreases v.len() - i,
    {
        out.push(v[i].len());
        i = i + 1;
    }
    out
}

/// What files of every kind have.
pub(crate) struct Shared<'a> {
    pub(crate) header: Header,
    pub(crate) sections: Vec<&'a [u8]>,
    pub(crate) normalizer: Normalizer,
    pub(crate) post_processor: PostProcessor,
    /// Where the tokens start, and where the last one ends.
    pub(crate) offsets: Vec<u32>,
    /// The bytes of the tokens.
    pub(crate) buffer: Vec<u8>,
}

/// What is wrong with what files of every kind have.
pub open spec fn opening_error(d: Seq<u8>) -> Option<SerdeError> {
    if let Some(e) = frame::header_error(d) {
        Some(e)
    } else if let Some(e) = frame::sections_error(d, 0) {
        Some(e)
    } else {
        shared_error(d)
    }
}

/// The normalizer is that of the file.
pub open spec fn is_normalizer(d: Seq<u8>, n: Normalizer) -> bool {
    &&& n.wf()
    &&& normalizer_id(n) == frame::word(d, 4)
    &&& charsmap_bytes(n) == if has_charsmap(frame::word(d, 4)) {
        frame::section(d, 5)
    } else {
        seq![]
    }
}

/// The post-processor is that of the file.
pub open spec fn is_post(d: Seq<u8>, p: PostProcessor) -> bool {
    &&& post::post_id(p) == frame::word(d, 5)
    &&& post::post_frame(frame::word(d, 5), frame::section(d, 4)) == Some(p.frame())
}

/// Read what files of every kind have.
pub(crate) fn read_shared<'a>(data: &'a [u8]) -> (r: Result<Shared<'a>, SerdeError>)
    ensures
        match r {
            Ok(x) => {
                let n = frame::word(data@, 6) as int;
                &&& opening_error(data@) is None
                &&& frame::is_header(data@, x.header)
                &&& x.sections@.len() == 7
                &&& forall|k: int|
                    0 <= k < 7 ==> (#[trigger] x.sections@[k])@ == frame::section(data@, k)
                &&& is_normalizer(data@, x.normalizer)
                &&& is_post(data@, x.post_processor)
                &&& x.offsets@ == codec::vocab_starts(frame::section(data@, 0), n)
                &&& x.buffer@ == codec::vocab_data(frame::section(data@, 0), n)
                &&& decoder::offsets_fit(x.offsets@, x.buffer@.len() as int)
            },
            Err(e) => opening_error(data@) == Some(e),
        },
{
    let header = match read_header(data) {
        Ok(h) => h,
        Err(e) => return Err(e),
    };
    let sections = match read_sections(data, header.version) {
        Ok(s) => s,
        Err(e) => return Err(e),
    };
    let normalizer = match read_normalizer(header.normalizer, sections[5]) {
        Ok(n) => n,
        Err(e) => return Err(e),
    };
    let post_processor = match PostProcessor::deserialize(header.post_processor, sections[4]) {
        Some(p) => p,
        None => return Err(SerdeError::InvalidPostProcessor(header.post_processor)),
    };
    let (offsets, buffer) = match deserialize_decoder(sections[0], header.vocab_size as usize) {
        Ok(p) => p,
        Err(e) => return Err(e),
    };
    if !check_offsets(offsets.as_slice(), buffer.len()) {
        return Err(SerdeError::InvalidData("decoder offsets out of order"));
    }
    Ok(Shared { header, sections, normalizer, post_processor, offsets, buffer })
}

impl Tokenizer {
    /// Load a tokenizer from the bytes of its file. What was saved is
    /// restored. Of other bytes it is said what the tokenizer holds, not that
    /// its parts fit each other.
    pub fn load(data: &[u8]) -> (r: Result<Self, SerdeError>)
        ensures
            load_error(data@) matches Some(e) ==> r == Err::<Self, SerdeError>(e),
            load_error(data@) is None ==> match r {
                Ok(t) => added_fit_file(data@) && t.is_read_from(data@)
                    && t.pipeline().normalizer.wf() && t.decodes(),
                Err(e) => !added_fit_file(data@) && e == SerdeError::InvalidData(
                    "added tokens too long",
                ),
            },
            forall|o: Tokenizer| #[trigger]
                o.wf() && o.saveable() && data@ == o.saved() ==> {
                    &&& r is Ok
                    &&& r->Ok_0.wf()
                    &&& r->Ok_0.restores(o)
                },
    {
        proof {
            assert forall|o: Tokenizer| #[trigger]
                o.wf() && o.saveable() && data@ == o.saved() implies in_order(data@) by {
                lemma_saved(o);
            }
        }
        let Shared { header: h, sections: s, normalizer, post_processor, offsets, buffer } =
            match read_shared(data) {
            Ok(x) => x,
            Err(e) => return Err(e),
        };
        let token_bytes = token_vectors(offsets.as_slice(), buffer.as_slice());
        match h.encoder {
            EncoderType::Backtracking => {},
            _ => return Err(SerdeError::InvalidEncoderType(h.encoder.to_u32())),
        }
        let split_table = match deserialize_splits(s[1]) {
            Ok(v) => v,
            Err(e) => return Err(e),
        };
        let matcher = match automaton::read_matcher(s[2]) {
            Some(m) => m,
            None => {
                proof {
                    assert forall|o: Tokenizer| #[trigger]
                        o.wf() && o.saveable() && data@ == o.saved() implies false by {
                        lemma_saved(o);
                        lemma_automaton(o);
                    }
                }
                return Err(SerdeError::InvalidData("failed to deserialize DAAC"));
            },
        };
        let next_prefix_match = match deserialize_prefix_match(s[3]) {
            Ok(v) => v,
            Err(e) => return Err(e),
        };
        proof {
            assert forall|o: Tokenizer| #[trigger]
                o.wf() && o.saveable() && data@ == o.saved() implies {
                &&& backtracking::parts_fit(
                    split_table@,
                    Seq::new(
                        token_bytes@.len(),
                        |i: int| token_bytes@[i]@.len() as usize,
                    ),
                    matcher,
                    next_prefix_match@,
                    backtracking::views(token_bytes@),
                )
                &&& backtracking::views(token_bytes@) == o.pipeline().rules.vocab
            } by {
                lemma_saved(o);
                lemma_automaton(o);
                o.lemma_vocab_small();
                let v = backtracking::views(token_bytes@);
                let l = Seq::new(token_bytes@.len(), |i: int| token_bytes@[i]@.len() as usize);
                assert forall|i: int| 0 <= i < v.len() implies #[trigger] l[i] == v[i].len() by {
                    lemma_vec_len(token_bytes@[i]);
                }
            }
            assert(backtracking::views(token_bytes@).len() == frame::word(data@, 6));
        }
        let base: usize = h.num_base_tokens as usize;
        let pair_lookup = rebuild_pair_lookup(split_table.as_slice(), base);
        let token_lengths = lengths_of(&token_bytes);
        assert(token_lengths@ =~= Seq::new(
            token_bytes@.len(),
            |i: int| token_bytes@[i]@.len() as usize,
        ));
        let enc = BacktrackingBytePairEncoder::from_parts(
            split_table,
            pair_lookup,
            token_lengths,
            base,
            matcher,
            next_prefix_match,
            token_bytes.as_slice(),
        );
        let decoder = Decoder::from_parts(
            buffer,
            offsets,
            DecoderType::from_encoder_type(h.encoder),
        );
        let mut t = Tokenizer::new(
            Encoder::Backtracking(enc),
            decoder,
            h.pretokenizer,
            normalizer,
            post_processor,
        );
        proof {
            assert forall|o: Tokenizer| #[trigger]
                o.wf() && o.saveable() && data@ == o.saved() implies t.wf()
                && t.pipeline().rules.vocab == o.pipeline().rules.vocab by {
                lemma_saved(o);
                o.lemma_parts();
                o.decoder_part().lemma_vocabulary();
            }
        }
        if let Some(id) = h.pad_token_id {
            t.set_pad_token_id(id);
        }
        assert(goes_by_file(t.pipeline(), data@));
        if h.version >= 13 {
            let (tokens, specials) = match deserialize_added_tokens(s[6]) {
                Ok(x) => x,
                Err(e) => return Err(e),
            };
            proof {
                assert forall|o: Tokenizer| #[trigger]
                    o.wf() && o.saveable() && data@ == o.saved() implies {
                    &&& tokens@.len() <= u32::MAX
                    &&& tokenizer::added_have_room(t.pipeline(), added::models(tokens@))
                } by {
                    lemma_saved(o);
                    lemma_added_room(t, o, added::models(tokens@));
                }
            }
            assert(added::models(tokens@) == added_section::tokens_of(added_in(data@)));
            if tokens.len() > u32::MAX as usize {
                return Err(SerdeError::InvalidData("added tokens too long"));
            }
            let ghost steps = t.pipeline();
            if !t.try_set_added_tokens(tokens.as_slice()) {
                return Err(SerdeError::InvalidData("added tokens too long"));
            }
            assert(t.pipeline().added =~= added::models(tokens@));
            proof {
                assert forall|p: Pipeline| #[trigger] goes_by_file(p, data@) implies tokens@.len()
                    == 0 || tokenizer::added_have_room(p, added::models(tokens@)) by {
                    lemma_room(steps, p, data@, added::models(tokens@));
                }
            }
            t.set_special_tokens(specials);
            t.mark_added_tokens_serialized();
        } else {
            proof {
                assert(added_section::tokens_of(added_in(data@)) =~= t.pipeline().added);
                assert(added_section::special_views(t.specials()) =~= added_section::specials_of(
                    added_in(data@),
                ));
            }
        }
        proof {
            assert forall|o: Tokenizer| #[trigger]
                o.wf() && o.saveable() && data@ == o.saved() implies t.wf() && t.restores(o) by {
                lemma_saved(o);
                o.lemma_parts();
                t.lemma_parts();
                pretok::law_pretok_ids(t.pretok_type(), o.pretok_type());
                added_section::law_added_tokens_are_read_back(
                    o.pipeline().added,
                    added_section::special_views(o.specials()),
                );
                let specials = added_section::special_views(o.specials());
                assert forall|k: int| 0 <= k < specials.len() implies added_section::special_views(
                    t.specials(),
                ).contains(#[trigger] specials[k]) by {
                    added_section::law_special_tokens_are_read_back(
                        o.pipeline().added,
                        specials,
                        k,
                    );
                }
                if added_section::tokens_distinct(o.pipeline().added) && specials.no_duplicates()
                    && added_section::specials_agree(o.pipeline().added, specials) {
                    added_section::law_tokens_are_read_back(o.pipeline().added, specials);
                }
            }
        }
        Ok(t)
    }
}

/// A saved tokenizer whose file has one byte changed behind the header is not
/// loaded: its checksum tells.
pub proof fn law_damaged_save_is_refused(o: Tokenizer, e: Seq<u8>, i: int)
    requires
        o.wf(),
        o.saveable(),
        frame::HEADER_SIZE_V13 <= i < o.saved().len(),
        e.len() == o.saved().len(),
        e[i] != o.saved()[i],
        forall|j: int| 0 <= j < e.len() && j != i ==> e[j] == o.saved()[j],
    ensures
        load_error(e) matches Some(SerdeError::ChecksumMismatch { .. }),
{
    lemma_saved(o);
    let k = frame::law_damaged_file_is_refused(o.saved(), e, i);
}

/// A restored tokenizer encodes every text as the saved one did, where that
/// one's pairs are those of its splits, its pretokenizer is the one on
/// record, and both share out texts alike.
pub proof fn law_restored_encodes_alike(t: Tokenizer, o: Tokenizer, s: Seq<char>, parallel: bool)
    requires
        t.wf(),
        o.wf(),
        t.restores(o),
        pairs_are_of_splits(o.pipeline().rules, o.encoder_part().base_tokens() as int),
        o.pipeline().pretok == pretok::pretokenizer_of(o.pretok_type()),
        t.pipeline().workers == o.pipeline().workers,
    ensures
        model::encodable(t.pipeline(), s, parallel) == model::encodable(
            o.pipeline(),
            s,
            parallel,
        ),
        model::raw_tokens(t.pipeline(), s, parallel) == model::raw_tokens(
            o.pipeline(),
            s,
            parallel,
        ),
{
    let (p, q) = (t.pipeline(), o.pipeline());
    t.lemma_parts();
    o.lemma_parts();
    o.lemma_vocab_small();
    law_normalizer_is_its_id(p.normalizer, q.normalizer);
    tokenizer::law_patterns_alike(
        p.rules,
        q.rules,
        p.normalizer,
        q.normalizer,
        p.added,
        q.added,
        q.added.len() as int,
    );
    tokenizer::law_same_steps(p, q, s, parallel);
}

/// A restored tokenizer encodes every text and decodes all tokens as the saved
/// one did, where that one's pairs are those of its splits, its pretokenizer is
/// the one on record, it decodes bytes, it neither pads nor cuts, and both share
/// out texts alike.
pub proof fn law_restored_works_alike(
    t: Tokenizer,
    o: Tokenizer,
    s: Seq<char>,
    special: bool,
    parallel: bool,
    tokens: Seq<TokenId>,
    r: Option<String>,
)
    requires
        t.wf(),
        o.wf(),
        t.restores(o),
        pairs_are_of_splits(o.pipeline().rules, o.encoder_part().base_tokens() as int),
        o.pipeline().pretok == pretok::pretokenizer_of(o.pretok_type()),
        o.decoder_part().kind() == DecoderType::ByteLevel,
        o.pad_params() is None,
        o.cut_params() is None,
        t.pipeline().workers == o.pipeline().workers,
    ensures
        model::encodable(t.pipeline(), s, parallel) == model::encodable(
            o.pipeline(),
            s,
            parallel,
        ),
        t.encoded(s, special, parallel) == o.encoded(s, special, parallel),
        t.encoded_ids(s, special, parallel) == o.encoded_ids(s, special, parallel),
        t.decoder_part().decodes_to(t.post(), tokens, r) == o.decoder_part().decodes_to(
            o.post(),
            tokens,
            r,
        ),
{
    law_restored_encodes_alike(t, o, s, parallel);
}

} // verus!
