//! The single writer. It encodes each record into a frame at the next
//! position, appends it to the file image, grows the image when a frame does
//! not fit, and — when overwrites are known to exist — compacts: it replays
//! the file, keeps the latest live record per key, and rewrites them from
//! position zero.

use vstd::prelude::*;

use crate::buffer::{is_tombstone, model_bounds, opt_model, BufModel, Buffer};
use crate::codec::{block_rel, frame_len, frame_size, frame_split_ok, Codec, CodecModel};
use crate::encrypt::Encryptor;
use crate::index::{entries_map, entry_ok, Index};
use crate::memory_map::{spec_content, spec_write_offset, MemoryMap};
use crate::Error;

verus! {

/// Replaying one frame's record over a map: a skipped frame changes nothing,
/// a tombstone removes its key, any other record overwrites its key.
pub open spec fn apply_record(
    m: Map<Seq<char>, BufModel>,
    r: Option<BufModel>,
) -> Map<Seq<char>, BufModel> {
    match r {
        None => m,
        Some(rec) => if is_tombstone(rec) {
            m.remove(rec.key)
        } else {
            m.insert(rec.key, rec)
        },
    }
}

/// The map obtained by replaying a history of frames in file order.
pub open spec fn fold_history(h: Seq<Option<BufModel>>) -> Map<Seq<char>, BufModel>
    decreases h.len(),
{
    if h.len() == 0 {
        Map::empty()
    } else {
        apply_record(fold_history(h.drop_last()), h.last())
    }
}

/// The bytes a history of decoded frames occupies; a skipped frame has no
/// record, so this measures only histories the writer itself lays out,
/// where every frame holds one.
pub open spec fn history_bytes(c: CodecModel, h: Seq<Option<BufModel>>) -> int
    decreases h.len(),
{
    if h.len() == 0 {
        0
    } else {
        history_bytes(c, h.drop_last()) + (match h.last() {
            Some(m) => frame_size(c, m),
            None => 0,
        })
    }
}

/// Whether `content` is exactly the frames of `h`, in order, the first at
/// `pos`, each related to its record by `block_rel`.
pub open spec fn blocks_rel(
    c: CodecModel,
    content: Seq<u8>,
    pos: u32,
    h: Seq<Option<BufModel>>,
) -> bool
    decreases content.len(),
{
    if content.len() == 0 {
        h.len() == 0
    } else if !frame_split_ok(content) {
        false
    } else {
        &&& h.len() > 0
        &&& pos < u32::MAX
        &&& block_rel(c, content.subrange(0, frame_len(content) as int), pos, h[0])
        &&& blocks_rel(c, content.skip(frame_len(content) as int), (pos + 1) as u32, h.skip(1))
    }
}

/// Replaying one more frame folds its record over the map so far.
pub proof fn lemma_fold_push(h: Seq<Option<BufModel>>, r: Option<BufModel>)
    ensures
        fold_history(h.push(r)) == apply_record(fold_history(h), r),
{
    assert(h.push(r).drop_last() =~= h);
}

/// Appending one frame to well-formed content extends its history.
pub proof fn lemma_blocks_rel_append(
    c: CodecModel,
    content: Seq<u8>,
    pos: u32,
    h: Seq<Option<BufModel>>,
    b: Seq<u8>,
    r: Option<BufModel>,
)
    requires
        blocks_rel(c, content, pos, h),
        pos + h.len() < u32::MAX,
        block_rel(c, b, (pos + h.len()) as u32, r),
    ensures
        blocks_rel(c, content + b, pos, h.push(r)),
    decreases content.len(),
{
    if content.len() == 0 {
        assert(h.len() == 0);
        assert(content + b =~= b);
        assert(frame_split_ok(b) && b.len() == frame_len(b));
        assert((content + b).subrange(0, frame_len(content + b) as int) =~= b);
        assert((content + b).skip(frame_len(content + b) as int) =~= Seq::<u8>::empty());
        assert(h.push(r)[0] == r);
        assert(h.push(r).skip(1) =~= Seq::<Option<BufModel>>::empty());
        assert(blocks_rel(c, (content + b).skip(frame_len(content + b) as int), (pos + 1) as u32, h.push(r).skip(1)));
        assert((pos + h.len()) as u32 == pos);
        assert(block_rel(c, (content + b).subrange(0, frame_len(content + b) as int), pos, h.push(r)[0]));
        assert(blocks_rel(c, content + b, pos, h.push(r)));
    } else {
        let n = frame_len(content) as int;
        assert(frame_split_ok(content));
        assert(4 <= n <= content.len());
        assert((content + b).subrange(0, 4) =~= content.subrange(0, 4));
        assert(frame_split_ok(content + b));
        assert(frame_len(content + b) == frame_len(content));
        assert((content + b).subrange(0, n) =~= content.subrange(0, n));
        assert((content + b).skip(n) =~= content.skip(n) + b);
        assert(h.push(r)[0] == h[0]);
        assert(h.push(r).skip(1) =~= h.skip(1).push(r));
        assert(h.len() > 0 && pos < u32::MAX);
        assert((pos + 1) + h.skip(1).len() == pos + h.len());
        assert(((pos + 1) as u32 + h.skip(1).len()) as u32 == (pos + h.len()) as u32);
        lemma_blocks_rel_append(c, content.skip(n), (pos + 1) as u32, h.skip(1), b, r);
        assert(blocks_rel(c, (content + b).skip(frame_len(content + b) as int), (pos + 1) as u32, h.push(r).skip(1)));
        assert(block_rel(c, (content + b).subrange(0, frame_len(content + b) as int), pos, h.push(r)[0]));
        assert(blocks_rel(c, content + b, pos, h.push(r)));
    }
}

/// Replaying the frames of live records with distinct keys yields exactly
/// their map.
pub proof fn lemma_fold_entries(s: Seq<BufModel>)
    requires
        forall|i: int| 0 <= i < s.len() ==> !is_tombstone(#[trigger] s[i]),
    ensures
        fold_history(s.map_values(|m: BufModel| Some(m))) == entries_map(s),
    decreases s.len(),
{
    let hs = s.map_values(|m: BufModel| Some(m));
    if s.len() == 0 {
        assert(hs.len() == 0);
    } else {
        assert(hs.drop_last() =~= s.drop_last().map_values(|m: BufModel| Some(m)));
        assert(forall|i: int|
            0 <= i < s.drop_last().len() ==> !is_tombstone(#[trigger] s.drop_last()[i]));
        lemma_fold_entries(s.drop_last());
        assert(hs.last() == Some(s.last()));
        assert(!is_tombstone(s[s.len() - 1]));
    }
}

/// Replays the frames at the front of `content`: builds the map of live
/// records, skipping frames whose record cannot be read, and counts the
/// frames. Replay stops at a torn frame or at the position limit; the
/// history of what was replayed is pinned: no other history fits the bytes.
pub fn replay_content(codec: &Codec, content: &[u8]) -> (r: (
    Index,
    u32,
    usize,
    Ghost<Seq<Option<BufModel>>>,
))
    requires
        codec.wf(),
    ensures
        ({
            let (idx, position, consumed, h) = r;
            &&& idx.wf()
            &&& consumed <= content@.len()
            &&& blocks_rel(codec@, content@.subrange(0, consumed as int), 0, h@)
            &&& position == h@.len()
            &&& idx@ == fold_history(h@)
            &&& forall|g: Seq<Option<BufModel>>| #[trigger]
                blocks_rel(codec@, content@, 0, g) ==> g == h@ && consumed == content@.len()
        }),
{
    // reading the length witnesses that the content fits the machine
    let _total = content.len();
    let mut idx = Index::new();
    let mut position: u32 = 0;
    let mut start: usize = 0;
    let ghost mut h: Seq<Option<BufModel>> = Seq::empty();
    proof {
        assert(content@.subrange(0, 0) =~= Seq::<u8>::empty());
        assert forall|g: Seq<Option<BufModel>>| #[trigger]
            blocks_rel(codec@, content@, 0, g) implies g.len() >= h.len() && g.subrange(
            0,
            h.len() as int,
        ) == h && blocks_rel(codec@, content@.skip(0), 0, g.skip(0)) by {
            assert(g.subrange(0, 0) =~= Seq::<Option<BufModel>>::empty());
            assert(content@.skip(0) =~= content@);
            assert(g.skip(0) =~= g);
        }
    }
    loop
        invariant
            codec.wf(),
            idx.wf(),
            start <= content@.len(),
            content@.len() <= usize::MAX,
            blocks_rel(codec@, content@.subrange(0, start as int), 0, h),
            position == h.len(),
            idx@ == fold_history(h),
            forall|g: Seq<Option<BufModel>>| #[trigger]
                blocks_rel(codec@, content@, 0, g) ==> g.len() >= h.len() && g.subrange(
                    0,
                    h.len() as int,
                ) == h && blocks_rel(codec@, content@.skip(start as int), position, g.skip(h.len() as int)),
        decreases content@.len() - start,
    {
        let ghost suffix = content@.skip(start as int);
        if start >= content.len() {
            proof {
                assert forall|g: Seq<Option<BufModel>>| #[trigger]
                    blocks_rel(codec@, content@, 0, g) implies g == h && start == content@.len() by {
                    assert(suffix.len() == 0);
                    assert(g.skip(h.len() as int).len() == 0);
                    assert(g =~= g.subrange(0, h.len() as int));
                }
                assert(content@.subrange(0, start as int) =~= content@);
            }
            return (idx, position, start, Ghost(h));
        }
        if position == u32::MAX {
            proof {
                assert forall|g: Seq<Option<BufModel>>| #[trigger]
                    blocks_rel(codec@, content@, 0, g) implies g == h && start == content@.len() by {
                    assert(suffix.len() > 0);
                    assert(blocks_rel(codec@, suffix, position, g.skip(h.len() as int)));
                }
            }
            return (idx, position, start, Ghost(h));
        }
        let slice = vstd::slice::slice_subrange(content, start, content.len());
        proof {
            assert(slice@ =~= suffix);
        }
        let dr = match codec.decode_bytes(slice, position) {
            Err(_) => {
                proof {
                    assert forall|g: Seq<Option<BufModel>>| #[trigger]
                        blocks_rel(codec@, content@, 0, g) implies g == h && start
                        == content@.len() by {
                        assert(suffix.len() > 0);
                        assert(blocks_rel(codec@, suffix, position, g.skip(h.len() as int)));
                        let b0 = suffix.subrange(0, frame_len(suffix) as int);
                        assert(b0.subrange(0, 4) =~= suffix.subrange(0, 4));
                    }
                }
                return (idx, position, start, Ghost(h));
            },
            Ok(dr) => dr,
        };
        let n = dr.len as usize;
        let ghost block = suffix.subrange(0, n as int);
        let ghost rec = opt_model(dr.buffer);
        match dr.buffer {
            Some(b) => {
                if b.is_deleting() {
                    idx.remove(b.key());
                } else {
                    idx.insert(b);
                }
            },
            None => {},
        }
        proof {
            assert(content@.subrange(0, start + n) =~= content@.subrange(0, start as int) + block);
            lemma_blocks_rel_append(codec@, content@.subrange(0, start as int), 0, h, block, rec);
            lemma_fold_push(h, rec);
            assert forall|g: Seq<Option<BufModel>>| #[trigger]
                blocks_rel(codec@, content@, 0, g) implies g.len() >= h.push(rec).len()
                && g.subrange(0, h.push(rec).len() as int) == h.push(rec) && blocks_rel(
                codec@,
                content@.skip((start + n) as int),
                (position + 1) as u32,
                g.skip(h.push(rec).len() as int),
            ) by {
                let gs = g.skip(h.len() as int);
                assert(blocks_rel(codec@, suffix, position, gs));
                assert(gs.len() > 0);
                assert(block_rel(codec@, suffix.subrange(0, frame_len(suffix) as int), position, gs[0]));
                assert(frame_len(suffix) == n);
                assert(gs[0] == rec);
                assert(g.subrange(0, h.push(rec).len() as int) =~= g.subrange(0, h.len() as int).push(gs[0]));
                assert(suffix.skip(n as int) =~= content@.skip((start + n) as int));
                assert(gs.skip(1) =~= g.skip(h.push(rec).len() as int));
            }
        }
        proof {
            h = h.push(rec);
        }
        position = position + 1;
        start = start + n;
    }
}

/// Compaction writes one frame per live key and nothing else: replaying the
/// compacted file yields a map with exactly as many keys as frames.
pub proof fn lemma_compaction_frame_count(s: Seq<BufModel>)
    requires
        forall|i: int| 0 <= i < s.len() ==> !is_tombstone(#[trigger] s[i]),
        forall|i: int, j: int| 0 <= i < j < s.len() ==> s[i].key != s[j].key,
    ensures
        fold_history(s.map_values(|m: BufModel| Some(m))).dom().len() == s.len(),
{
    lemma_fold_entries(s);
    assert(forall|a: int, b: int|
        #![trigger s[a], s[b]]
        0 <= a < b < s.len() ==> s[a].key != s[b].key);
    Index::lemma_entries_lookup(s);
}

/// The writer: the file image, the codec, the next frame position, and the
/// sticky compaction flag.
pub struct IOWriter {
    config_page_size: usize,
    mm: MemoryMap,
    position: u32,
    need_trim: bool,
    codec: Codec,
    history: Ghost<Seq<Option<BufModel>>>,
}

impl IOWriter {
    /// The records of the frames currently in the file, in order.
    pub closed spec fn history(&self) -> Seq<Option<BufModel>> {
        self.history@
    }

    /// The map the file replays to.
    pub open spec fn replayed(&self) -> Map<Seq<char>, BufModel> {
        fold_history(self.history())
    }

    /// The whole file image.
    pub closed spec fn file(&self) -> Seq<u8> {
        self.mm@
    }

    /// The codec in force.
    pub closed spec fn codec_model(&self) -> CodecModel {
        self.codec@
    }

    /// The next frame position.
    pub closed spec fn spec_position(&self) -> u32 {
        self.position
    }

    /// Whether a compaction is owed.
    pub closed spec fn spec_need_trim(&self) -> bool {
        self.need_trim
    }

    /// The writer's well-formedness: the image is whole, its content is
    /// exactly the frames of the history, and the position counts them.
    pub closed spec fn inv(&self) -> bool {
        &&& self.mm.wf()
        &&& self.codec.wf()
        &&& self.config_page_size >= 8
        &&& blocks_rel(self.codec@, spec_content(self.mm@), 0, self.history@)
        &&& self.position == self.history@.len()
    }

    /// A well-formed writer's image holds its header and content: facts a
    /// caller may use without opening the invariant.
    pub proof fn lemma_image_bounds(&self)
        requires
            self.inv(),
        ensures
            self.file().len() >= 8,
            spec_write_offset(self.file()) <= self.file().len(),
    {
    }

    /// The position counts the frames in the file: what `inv` states.
    pub proof fn lemma_position_counts_frames(&self)
        requires
            self.inv(),
        ensures
            blocks_rel(self.codec_model(), spec_content(self.file()), 0, self.history()),
            self.spec_position() == self.history().len(),
    {
    }

    /// Assembles a writer over a replayed image.
    pub fn new(
        config_page_size: usize,
        mm: MemoryMap,
        position: u32,
        codec: Codec,
        Ghost(history): Ghost<Seq<Option<BufModel>>>,
    ) -> (r: Self)
        requires
            config_page_size >= 8,
            mm.wf(),
            codec.wf(),
            blocks_rel(codec@, spec_content(mm@), 0, history),
            position == history.len(),
        ensures
            r.inv(),
            r.history() == history,
            r.codec_model() == codec@,
            r.spec_position() == position,
            r.spec_need_trim() == false,
            r.file() == mm@,
    {
        IOWriter { config_page_size, mm, position, need_trim: false, codec, history: Ghost(history) }
    }

    /// The write offset of the file image.
    pub fn write_offset(&self) -> (r: usize)
        requires
            self.inv(),
        ensures
            r == spec_write_offset(self.file()),
    {
        self.mm.write_offset()
    }

    /// The file's size.
    pub fn file_size(&self) -> (r: usize)
        requires
            self.inv(),
        ensures
            r == self.file().len(),
    {
        self.mm.len()
    }

    /// The next frame position: the number of frames in the file.
    pub fn position(&self) -> (r: u32)
        requires
            self.inv(),
        ensures
            r == self.spec_position(),
            r == self.history().len(),
    {
        self.position
    }

    /// A copy of the file image, for the caller to persist.
    pub fn file_bytes(&self) -> (r: Vec<u8>)
        ensures
            r@ == self.file(),
    {
        let mut out: Vec<u8> = Vec::new();
        crate::be::push_bytes(&mut out, self.mm.read(0, self.mm.len()));
        proof {
            assert(out@ =~= self.file());
        }
        out
    }

    /// The keystream nonce to persist, under encryption.
    pub fn nonce(&self) -> (r: Option<&Vec<u8>>)
        ensures
            match r {
                Some(n) => self.codec_model() matches CodecModel::Aead { key, nonce } && n@
                    == nonce,
                None => self.codec_model() is Crc,
            },
    {
        match &self.codec {
            Codec::Plain(_) => None,
            Codec::Encrypted(e) => Some(e.nonce()),
        }
    }

    /// Grows the image by one page; the content is untouched.
    fn expand(&mut self) -> (r: Result<(), Error>)
        requires
            old(self).inv(),
        ensures
            final(self).inv(),
            final(self).history() == old(self).history(),
            final(self).codec_model() == old(self).codec_model(),
            final(self).spec_position() == old(self).spec_position(),
            final(self).spec_need_trim() == old(self).spec_need_trim(),
            spec_content(final(self).file()) == spec_content(old(self).file()),
            spec_write_offset(final(self).file()) == spec_write_offset(old(self).file()),
            final(self).config_page_size_spec() == old(self).config_page_size_spec(),
            match r {
                Ok(()) => final(self).file().len() == old(self).file().len()
                    + old(self).config_page_size_spec() && final(self).file().len() <= usize::MAX,
                Err(e) => e is IOError && final(self).file().len() == old(self).file().len(),
            },
    {
        self.mm.grow(self.config_page_size)
    }

    /// Grows the image until `need` bytes fit at the write offset.
    fn ensure_fits(&mut self, need: usize) -> (r: Result<(), Error>)
        requires
            old(self).inv(),
        ensures
            final(self).inv(),
            final(self).history() == old(self).history(),
            final(self).codec_model() == old(self).codec_model(),
            final(self).spec_position() == old(self).spec_position(),
            final(self).spec_need_trim() == old(self).spec_need_trim(),
            spec_content(final(self).file()) == spec_content(old(self).file()),
            spec_write_offset(final(self).file()) == spec_write_offset(old(self).file()),
            final(self).config_page_size_spec() == old(self).config_page_size_spec(),
            r is Ok ==> spec_write_offset(final(self).file()) + need <= final(self).file().len(),
            r is Ok && need <= old(self).file().len() - spec_write_offset(old(self).file())
                ==> final(self).file().len() == old(self).file().len(),
            r is Ok && need > old(self).file().len() - spec_write_offset(old(self).file()) ==> ({
                &&& exists|k: nat|
                    1 <= k && final(self).file().len() == old(self).file().len() + #[trigger] (
                    k * old(self).config_page_size_spec())
                &&& final(self).file().len() < spec_write_offset(old(self).file()) + need + old(
                    self,
                ).config_page_size_spec()
            }),
            r matches Err(e) ==> e is IOError,
    {
        // reading the size witnesses that the image fits the machine
        let _image_len = self.mm.len();
        let ghost page = self.config_page_size_spec();
        let ghost mut pages: nat = 0;
        loop
            invariant
                self.inv(),
                self.file().len() <= usize::MAX,
                self.history() == old(self).history(),
                self.codec_model() == old(self).codec_model(),
                self.spec_position() == old(self).spec_position(),
                self.spec_need_trim() == old(self).spec_need_trim(),
                spec_content(self.file()) == spec_content(old(self).file()),
                spec_write_offset(self.file()) == spec_write_offset(old(self).file()),
                self.config_page_size_spec() == page == old(self).config_page_size_spec(),
                self.file().len() == old(self).file().len() + pages * page,
                pages > 0 ==> old(self).file().len() + (pages - 1) * page < spec_write_offset(
                    old(self).file(),
                ) + need,
            decreases usize::MAX - self.file().len(),
        {
            let wo = self.mm.write_offset();
            let max_len = self.mm.len();
            if need <= max_len - wo {
                proof {
                    if need > old(self).file().len() - spec_write_offset(old(self).file()) {
                        assert(pages >= 1);
                        assert((pages - 1) * page == pages * page - page) by (nonlinear_arith);
                    }
                }
                return Ok(());
            }
            if let Err(e) = self.expand() {
                return Err(e);
            }
            proof {
                assert((pages + 1) * page == pages * page + page) by (nonlinear_arith);
                pages = pages + 1;
            }
        }
    }

    /// The growth granularity.
    pub closed spec fn config_page_size_spec(&self) -> usize {
        self.config_page_size
    }

    /// Persists one record: encodes it at the current position and appends
    /// the frame. When the frame does not fit, the writer compacts if an
    /// overwrite has been seen (`duplicated` here or earlier), else grows
    /// the file. On success the replayed map folds the record in.
    pub fn write(&mut self, buffer: Buffer, duplicated: bool) -> (r: Result<(), Error>)
        requires
            old(self).inv(),
            model_bounds(buffer@),
        ensures
            final(self).inv(),
            r is Ok ==> fold_history(final(self).history()) == apply_record(
                fold_history(old(self).history()),
                Some(buffer@),
            ),
            r matches Err(e) ==> e is EncodeFailed || e is EncryptFailed || e is IOError,
            // success is owed whenever the frame fits as the file stands
            crate::buffer::payload_of(buffer@).len() + 8 <= u32::MAX - 4 && old(
                self,
            ).spec_position() < u32::MAX && spec_write_offset(old(self).file()) + frame_size(
                old(self).codec_model(),
                buffer@,
            ) <= old(self).file().len() ==> r is Ok,
            // which of the three paths ran, and what each leaves behind
            r is Ok ==> ({
                let fs = frame_size(old(self).codec_model(), buffer@);
                if spec_write_offset(old(self).file()) + fs <= old(self).file().len() {
                    // the frame fit: a plain append
                    &&& final(self).history() == old(self).history().push(Some(buffer@))
                    &&& final(self).spec_position() == old(self).spec_position() + 1
                    &&& spec_write_offset(final(self).file()) == spec_write_offset(
                        old(self).file(),
                    ) + fs
                    &&& final(self).file().len() == old(self).file().len()
                    &&& final(self).spec_need_trim() == (old(self).spec_need_trim() || duplicated)
                    &&& final(self).codec_model() == old(self).codec_model()
                } else if old(self).spec_need_trim() || duplicated {
                    // compaction ran: one frame per live key, the flag cleared
                    &&& final(self).spec_need_trim() == false
                    &&& final(self).spec_position() == final(self).replayed().dom().len()
                    &&& spec_write_offset(final(self).file()) == 8 + history_bytes(
                        final(self).codec_model(),
                        final(self).history(),
                    )
                    &&& (old(self).codec_model() is Crc
                        ==> final(self).codec_model() == old(self).codec_model())
                    &&& (old(self).codec_model() matches CodecModel::Aead { key, nonce }
                        ==> (final(self).codec_model() matches CodecModel::Aead {
                            key: k2,
                            nonce: n2,
                        } && k2 == key))
                } else {
                    // the file grew, one page at a time, until the frame fit
                    &&& final(self).history() == old(self).history().push(Some(buffer@))
                    &&& final(self).spec_position() == old(self).spec_position() + 1
                    &&& spec_write_offset(final(self).file()) == spec_write_offset(
                        old(self).file(),
                    ) + fs
                    &&& final(self).spec_need_trim() == false
                    &&& final(self).codec_model() == old(self).codec_model()
                    &&& (exists|k: nat|
                        1 <= k && final(self).file().len() == old(self).file().len() + #[trigger] (
                        k * old(self).config_page_size_spec()))
                    &&& final(self).file().len() < spec_write_offset(old(self).file()) + fs + old(
                        self,
                    ).config_page_size_spec()
                }
            }),
    {
        let data = match self.codec.encode_to_bytes(&buffer, self.position) {
            Ok(d) => d,
            Err(e) => {
                return Err(e);
            },
        };
        if self.position == u32::MAX {
            return Err(Error::EncodeFailed("frame position limit reached".to_owned()));
        }
        if duplicated {
            self.need_trim = true;
        }
        let wo = self.mm.write_offset();
        let max_len = self.mm.len();
        if data.len() <= max_len - wo {
            self.append_frame(data, Ghost(Some(buffer@)));
            return Ok(());
        }
        if self.need_trim {
            self.trim(buffer)
        } else {
            if let Err(e) = self.ensure_fits(data.len()) {
                return Err(e);
            }
            self.append_frame(data, Ghost(Some(buffer@)));
            Ok(())
        }
    }

    /// Appends one already-encoded frame and counts it.
    fn append_frame(&mut self, data: Vec<u8>, Ghost(rec): Ghost<Option<BufModel>>)
        requires
            old(self).inv(),
            old(self).spec_position() < u32::MAX,
            block_rel(old(self).codec_model(), data@, old(self).spec_position(), rec),
            spec_write_offset(old(self).file()) + data@.len() <= old(self).file().len(),
        ensures
            final(self).inv(),
            final(self).history() == old(self).history().push(rec),
            final(self).codec_model() == old(self).codec_model(),
            final(self).spec_position() == old(self).spec_position() + 1,
            final(self).spec_need_trim() == old(self).spec_need_trim(),
            fold_history(final(self).history()) == apply_record(
                fold_history(old(self).history()),
                rec,
            ),
            spec_write_offset(final(self).file()) == spec_write_offset(old(self).file())
                + data@.len(),
            final(self).file().len() == old(self).file().len(),
    {
        proof {
            lemma_blocks_rel_append(
                self.codec@,
                spec_content(self.mm@),
                0,
                self.history@,
                data@,
                rec,
            );
            lemma_fold_push(self.history@, rec);
        }
        let ghost g = self.history@.push(rec);
        self.mm.append(data);
        self.position = self.position + 1;
        self.history = Ghost(g);
    }

    /// Compacts: replays the file into the latest live record per key, folds
    /// the incoming record in, resets the image and the position — with a
    /// fresh keystream under encryption, so no counter is reused under one
    /// nonce — and rewrites every kept record, growing the file as needed.
    fn trim(&mut self, incoming: Buffer) -> (r: Result<(), Error>)
        requires
            old(self).inv(),
            model_bounds(incoming@),
        ensures
            final(self).inv(),
            r is Ok ==> ({
                &&& fold_history(final(self).history()) == apply_record(
                    fold_history(old(self).history()),
                    Some(incoming@),
                )
                &&& final(self).spec_need_trim() == false
                &&& final(self).spec_position() == final(self).replayed().dom().len()
                &&& spec_write_offset(final(self).file()) == 8 + history_bytes(
                    final(self).codec_model(),
                    final(self).history(),
                )
                &&& (old(self).codec_model() is Crc
                    ==> final(self).codec_model() == old(self).codec_model())
                &&& (old(self).codec_model() matches CodecModel::Aead { key, nonce }
                    ==> (final(self).codec_model() matches CodecModel::Aead { key: k2, nonce: n2 }
                    && k2 == key))
            }),
            r matches Err(e) ==> e is EncodeFailed || e is EncryptFailed || e is IOError,
    {
        let wo = self.mm.write_offset();
        let content_slice = self.mm.read(8, wo);
        proof {
            assert(content_slice@ =~= spec_content(self.mm@));
        }
        let (mut snap, _replayed_position, _consumed, Ghost(hr)) = replay_content(
            &self.codec,
            content_slice,
        );
        proof {
            assert(blocks_rel(self.codec@, content_slice@, 0, self.history@));
            assert(hr == self.history@);
            assert(snap@ == fold_history(self.history@));
        }
        // fold the incoming record into the snapshot
        if incoming.is_deleting() {
            snap.remove(incoming.key());
        } else {
            snap.insert(incoming.clone());
        }
        let ghost target = apply_record(fold_history(old(self).history()), Some(incoming@));
        proof {
            assert(snap@ == target);
        }
        // under encryption: a fresh nonce, so counters restart safely
        if let Codec::Encrypted(e) = &self.codec {
            let key_copy = crate::be::copy_range(e.key().as_slice(), 0, e.key().len());
            proof {
                assert(key_copy@ =~= e@.0);
            }
            let fresh = match Encryptor::new(key_copy) {
                Ok(f) => f,
                Err(err) => {
                    return Err(err);
                },
            };
            self.codec = Codec::Encrypted(fresh);
        }
        self.mm.reset();
        self.position = 0;
        self.history = Ghost(Seq::empty());
        proof {
            assert(spec_content(self.mm@) =~= Seq::<u8>::empty());
        }
        // rewrite the kept records in entry order
        let count = snap.entry_count();
        let ghost codec_now = self.codec_model();
        proof {
            snap.lemma_wf_facts();
        }
        let mut i: usize = 0;
        while i < count
            invariant
                self.inv(),
                snap.wf(),
                count == snap.models().len(),
                i <= count,
                snap@ == target,
                snap@ == entries_map(snap.models()),
                forall|j: int|
                    #![trigger snap.models()[j]]
                    0 <= j < count ==> entry_ok(snap.models()[j]),
                self.history() == snap.models().subrange(0, i as int).map_values(
                    |m: BufModel| Some(m),
                ),
                self.spec_position() == i,
                self.spec_need_trim() == old(self).spec_need_trim(),
                self.codec_model() == codec_now,
                spec_write_offset(self.file()) == 8 + history_bytes(
                    self.codec_model(),
                    self.history(),
                ),
            decreases count - i,
        {
            let b = snap.entry_at(i).clone();
            let data = match self.codec.encode_to_bytes(&b, self.position) {
                Ok(d) => d,
                Err(e) => {
                    return Err(e);
                },
            };
            if self.position == u32::MAX {
                return Err(Error::EncodeFailed("frame position limit reached".to_owned()));
            }
            if let Err(e) = self.ensure_fits(data.len()) {
                return Err(e);
            }
            let ghost before_history = self.history();
            self.append_frame(data, Ghost(Some(snap.models()[i as int])));
            proof {
                assert(self.history() =~= snap.models().subrange(0, i + 1).map_values(
                    |m: BufModel| Some(m),
                ));
                assert(self.history().drop_last() =~= before_history);
                assert(history_bytes(self.codec_model(), self.history()) == history_bytes(
                    self.codec_model(),
                    before_history,
                ) + frame_size(self.codec_model(), snap.models()[i as int]));
            }
            i = i + 1;
        }
        self.need_trim = false;
        proof {
            assert(snap.models().subrange(0, count as int) =~= snap.models());
            lemma_fold_entries(snap.models());
            snap.lemma_wf_facts();
            Index::lemma_entries_lookup(snap.models());
        }
        Ok(())
    }
}

} // verus!
