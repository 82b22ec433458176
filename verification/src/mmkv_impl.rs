//! The store core: the in-memory index in front of the single writer. A put
//! or delete updates the index and persists a frame; a get reads the index
//! alone. Opening replays the file image into the index; the image and a
//! companion nonce are handed back for the caller to persist.

use vstd::prelude::*;

use crate::buffer::{is_tombstone, model_bounds, BufModel, Buffer};
use crate::codec::{Codec, CodecModel, CrcEncoderDecoder};
use crate::encrypt::Encryptor;
use crate::index::Index;
use crate::memory_map::{spec_content, spec_content_len, spec_write_offset, MemoryMap};
use crate::writer::{blocks_rel, fold_history, replay_content, IOWriter};
use crate::Error;

verus! {

fn zero_image(len: usize) -> (r: Vec<u8>)
    ensures
        r@.len() == len,
        forall|i: int| 0 <= i < len ==> r@[i] == 0,
{
    let mut out: Vec<u8> = Vec::new();
    while out.len() < len
        invariant
            out@.len() <= len,
            forall|i: int| 0 <= i < out@.len() ==> out@[i] == 0,
        decreases len - out@.len(),
    {
        out.push(0);
    }
    out
}

/// The store: the index of live records, the writer persisting them, and
/// the open/closed state.
pub struct MmkvImpl {
    kv_map: Index,
    is_valid: bool,
    io_writer: IOWriter,
    clean: Ghost<bool>,
}

impl View for MmkvImpl {
    type V = Map<Seq<char>, BufModel>;

    closed spec fn view(&self) -> Map<Seq<char>, BufModel> {
        self.kv_map@
    }
}

impl MmkvImpl {
    /// Whether the store still accepts writes.
    pub closed spec fn is_valid(&self) -> bool {
        self.is_valid
    }

    /// Whether every write so far has reached the file: then the index is
    /// exactly what the file replays to.
    pub closed spec fn clean_spec(&self) -> bool {
        self.clean@
    }

    /// The file image the store maintains.
    pub closed spec fn file(&self) -> Seq<u8> {
        self.io_writer.file()
    }

    /// The codec in force.
    pub closed spec fn codec_model(&self) -> CodecModel {
        self.io_writer.codec_model()
    }

    /// The records of the frames currently in the file.
    pub closed spec fn history(&self) -> Seq<Option<BufModel>> {
        self.io_writer.history()
    }

    /// The map the file replays to.
    pub open spec fn replayed(&self) -> Map<Seq<char>, BufModel> {
        crate::writer::fold_history(self.history())
    }

    /// Whether the writer owes a compaction.
    pub closed spec fn spec_need_trim(&self) -> bool {
        self.io_writer.spec_need_trim()
    }

    /// The growth granularity.
    pub closed spec fn spec_page_size(&self) -> usize {
        self.io_writer.config_page_size_spec()
    }

    /// The store's well-formedness: index and writer are whole, and while
    /// the store is clean the index is what the file replays to.
    pub closed spec fn inv(&self) -> bool {
        &&& self.kv_map.wf()
        &&& self.io_writer.inv()
        &&& self.clean@ ==> self.kv_map@ == fold_history(self.io_writer.history())
    }

    /// A well-formed store's image holds its header and content: what the
    /// writer's invariant gives, exported for reopen reasoning.
    pub proof fn lemma_image_bounds(&self)
        requires
            self.inv(),
        ensures
            self.file().len() >= 8,
            spec_write_offset(self.file()) <= self.file().len(),
    {
        self.io_writer.lemma_image_bounds();
    }

    /// A clean store's index is what its file replays to: the durability
    /// tie that reopening relies on.
    pub proof fn lemma_clean_replay(&self)
        requires
            self.inv(),
            self.clean_spec(),
        ensures
            blocks_rel(self.codec_model(), spec_content(self.file()), 0, self.history()),
            self@ == fold_history(self.history()),
    {
        self.io_writer.lemma_position_counts_frames();
    }

    fn open_with_codec(file: Vec<u8>, page_size: usize, codec: Codec) -> (r: Self)
        requires
            page_size >= 8,
            codec.wf(),
        ensures
            r.inv(),
            r.is_valid(),
            r.clean_spec(),
            r.codec_model() == codec@,
            file@.len() >= 8 && spec_write_offset(file@) <= file@.len() ==> forall|
                g: Seq<Option<BufModel>>,
            | #[trigger]
                blocks_rel(codec@, spec_content(file@), 0, g) ==> r@ == fold_history(g)
                    && r.history() == g && r.file() == file@,
            file@.len() < 8 || spec_write_offset(file@) > file@.len() ==> r@ == Map::<
                Seq<char>,
                BufModel,
            >::empty() && r.history().len() == 0 && spec_write_offset(r.file()) == 8,
            file@.len() < 8 ==> r.file().len() == page_size,
            file@.len() >= 8 ==> r.file().len() == file@.len(),
    {
        let too_small = file.len() < 8;
        let image = if too_small {
            zero_image(page_size)
        } else {
            file
        };
        let ghost image_view = image@;
        proof {
            if too_small {
                assert(image_view.subrange(0, 8) =~= image_view.subrange(0int, 8int));
                assert(spec_content_len(image_view) == 0) by {
                    assert(forall|i: int| 0 <= i < 8 ==> image_view.subrange(0, 8)[i] == 0);
                    assert((((0u8 as u64) << 56) | ((0u8 as u64) << 48) | ((0u8 as u64) << 40) | ((
                    0u8 as u64) << 32) | ((0u8 as u64) << 24) | ((0u8 as u64) << 16) | ((
                    0u8 as u64) << 8) | (0u8 as u64)) as u64 == 0) by (bit_vector);
                }
            }
        }
        let mut mm = MemoryMap::new(image);
        let wo = mm.write_offset();
        let content_slice = mm.read(8, wo);
        let (idx, position, consumed, Ghost(h)) = replay_content(&codec, content_slice);
        proof {
            assert(content_slice@ =~= spec_content(mm@));
        }
        let clamped = consumed < wo - 8;
        if clamped {
            // the tail could not be replayed; drop it from the content
            mm.clamp_content(consumed);
            proof {
                assert(spec_content(mm@) =~= content_slice@.subrange(0, consumed as int));
            }
        } else {
            proof {
                assert(content_slice@.subrange(0, consumed as int) =~= spec_content(mm@));
            }
        }
        let io_writer = IOWriter::new(page_size, mm, position, codec, Ghost(h));
        let r = MmkvImpl { kv_map: idx, is_valid: true, io_writer, clean: Ghost(true) };
        proof {
            if !too_small && spec_write_offset(file@) <= file@.len() {
                assert forall|g: Seq<Option<BufModel>>| #[trigger]
                    blocks_rel(codec@, spec_content(file@), 0, g) implies r@ == fold_history(g)
                    && r.history() == g && r.file() == file@ by {
                    assert(g == h && consumed == content_slice@.len());
                    assert(!clamped);
                }
            }
            if too_small || spec_write_offset(file@) > file@.len() {
                assert(content_slice@.len() == 0);
                assert(h.len() == 0);
                assert(r@ =~= Map::<Seq<char>, BufModel>::empty());
            }
        }
        r
    }

    /// Opens a store over a file image with the plain codec. An image too
    /// small to hold the header starts fresh at one page. Whatever history
    /// of frames the image holds, the index is its replay.
    pub fn new(file: Vec<u8>, page_size: usize) -> (r: Self)
        requires
            page_size >= 8,
        ensures
            r.inv(),
            r.is_valid(),
            r.clean_spec(),
            r.codec_model() == CodecModel::Crc,
            file@.len() >= 8 && spec_write_offset(file@) <= file@.len() ==> forall|
                g: Seq<Option<BufModel>>,
            | #[trigger]
                blocks_rel(CodecModel::Crc, spec_content(file@), 0, g) ==> r@ == fold_history(g)
                    && r.history() == g && r.file() == file@,
            file@.len() < 8 || spec_write_offset(file@) > file@.len() ==> r@ == Map::<
                Seq<char>,
                BufModel,
            >::empty() && r.history().len() == 0 && spec_write_offset(r.file()) == 8,
            file@.len() < 8 ==> r.file().len() == page_size,
            file@.len() >= 8 ==> r.file().len() == file@.len(),
    {
        Self::open_with_codec(file, page_size, Codec::Plain(CrcEncoderDecoder))
    }

    /// Opens a store over a file image with the encrypted codec. The nonce
    /// comes from the meta file's bytes; a missing or malformed meta file
    /// forces a fresh nonce, under which all existing frames fail to decrypt
    /// and are dropped. Fails only when fresh entropy cannot be drawn.
    pub fn new_with_encryption(
        file: Vec<u8>,
        page_size: usize,
        key: Vec<u8>,
        meta: Option<Vec<u8>>,
    ) -> (r: Result<Self, Error>)
        requires
            page_size >= 8,
            key@.len() == 16,
        ensures
            match r {
                Ok(s) => {
                    &&& s.inv()
                    &&& s.is_valid()
                    &&& s.clean_spec()
                    &&& s.codec_model() matches CodecModel::Aead { key: k, nonce: n } && k == key@
                    &&& match meta {
                        Some(m) => m@.len() == 11 ==> {
                            &&& s.codec_model() == (CodecModel::Aead { key: key@, nonce: m@ })
                            &&& (file@.len() >= 8 && spec_write_offset(file@) <= file@.len()
                                ==> forall|g: Seq<Option<BufModel>>| #[trigger]
                                blocks_rel(
                                    CodecModel::Aead { key: key@, nonce: m@ },
                                    spec_content(file@),
                                    0,
                                    g,
                                ) ==> s@ == fold_history(g) && s.history() == g && s.file()
                                    == file@)
                        },
                        None => true,
                    }
                    &&& (file@.len() < 8 || spec_write_offset(file@) > file@.len() ==> s@
                        == Map::<Seq<char>, BufModel>::empty() && s.history().len() == 0)
                },
                Err(e) => e is EncryptFailed,
            },
            meta matches Some(m) && m@.len() == 11 ==> r is Ok,
    {
        let encryptor = match meta {
            Some(m) => {
                if m.len() == 11 {
                    Encryptor::new_with_nonce(key, m)
                } else {
                    match Encryptor::new(key) {
                        Ok(e) => e,
                        Err(err) => {
                            return Err(err);
                        },
                    }
                }
            },
            None => {
                match Encryptor::new(key) {
                    Ok(e) => e,
                    Err(err) => {
                        return Err(err);
                    },
                }
            },
        };
        Ok(Self::open_with_codec(file, page_size, Codec::Encrypted(encryptor)))
    }

    /// Stores a record under its key: the index takes it at once, and the
    /// writer persists it. Fails without touching the store when the store
    /// is closed or the record cannot be framed.
    pub fn put(&mut self, key: &str, raw_buffer: Buffer) -> (r: Result<(), Error>)
        requires
            old(self).inv(),
            raw_buffer@.key == key@,
            !is_tombstone(raw_buffer@),
            model_bounds(raw_buffer@),
        ensures
            final(self).inv(),
            final(self).is_valid() == old(self).is_valid(),
            !old(self).is_valid() ==> r == Err::<(), Error>(Error::InstanceClosed) && final(self)@
                == old(self)@,
            old(self).is_valid() ==> match r {
                Ok(()) => {
                    &&& final(self)@ == old(self)@.insert(key@, raw_buffer@)
                    &&& old(self).clean_spec() ==> final(self).clean_spec()
                },
                Err(e) => final(self)@ == old(self)@ && (e is EncodeFailed || e is EncryptFailed
                    || e is IOError),
            },
            // success is owed whenever the frame fits as the file stands
            old(self).is_valid() && crate::buffer::payload_of(raw_buffer@).len() + 8 <= u32::MAX
                - 4 && old(self).history().len() < u32::MAX && spec_write_offset(
                old(self).file(),
            ) + crate::codec::frame_size(old(self).codec_model(), raw_buffer@) <= old(
                self,
            ).file().len() ==> r is Ok,
            // which write path ran, and what each leaves behind
            old(self).is_valid() && r is Ok ==> ({
                let fs = crate::codec::frame_size(old(self).codec_model(), raw_buffer@);
                let overwrote = old(self)@.contains_key(key@);
                if spec_write_offset(old(self).file()) + fs <= old(self).file().len() {
                    // the frame fit: a plain append
                    &&& final(self).history() == old(self).history().push(Some(raw_buffer@))
                    &&& spec_write_offset(final(self).file()) == spec_write_offset(
                        old(self).file(),
                    ) + fs
                    &&& final(self).file().len() == old(self).file().len()
                    &&& final(self).spec_need_trim() == (old(self).spec_need_trim() || overwrote)
                    &&& final(self).codec_model() == old(self).codec_model()
                } else if old(self).spec_need_trim() || overwrote {
                    // compaction ran: one frame per live key, the flag cleared
                    &&& final(self).spec_need_trim() == false
                    &&& final(self).history().len() == final(self).replayed().dom().len()
                    &&& spec_write_offset(final(self).file()) == 8 + crate::writer::history_bytes(
                        final(self).codec_model(),
                        final(self).history(),
                    )
                    &&& (old(self).codec_model() is Crc
                        ==> final(self).codec_model() == old(self).codec_model())
                } else {
                    // the file grew, one page at a time, until the frame fit
                    &&& final(self).history() == old(self).history().push(Some(raw_buffer@))
                    &&& spec_write_offset(final(self).file()) == spec_write_offset(
                        old(self).file(),
                    ) + fs
                    &&& final(self).spec_need_trim() == false
                    &&& final(self).codec_model() == old(self).codec_model()
                    &&& (exists|k: nat|
                        1 <= k && final(self).file().len() == old(self).file().len() + #[trigger] (
                        k * old(self).spec_page_size()))
                    &&& final(self).file().len() < spec_write_offset(old(self).file()) + fs + old(
                        self,
                    ).spec_page_size()
                }
            }),
    {
        if !self.is_valid {
            return Err(Error::InstanceClosed);
        }
        let duplicated = match self.kv_map.get(key) {
            Some(_) => true,
            None => false,
        };
        proof {
            self.io_writer.lemma_position_counts_frames();
        }
        match self.io_writer.write(raw_buffer.clone(), duplicated) {
            Ok(()) => {
                proof {
                    self.io_writer.lemma_position_counts_frames();
                    // the growth witness carries over to the store's view
                    let fs = crate::codec::frame_size(old(self).codec_model(), raw_buffer@);
                    if !(spec_write_offset(old(self).file()) + fs <= old(self).file().len()) && !(
                    old(self).spec_need_trim() || duplicated) {
                        let k = choose|k: nat|
                            1 <= k && self.io_writer.file().len() == old(
                                self,
                            ).io_writer.file().len() + #[trigger] (k * old(
                                self,
                            ).io_writer.config_page_size_spec());
                        assert(self.file().len() == old(self).file().len() + k * old(
                            self,
                        ).spec_page_size());
                        assert(exists|j: nat|
                            1 <= j && self.file().len() == old(self).file().len() + #[trigger] (j
                                * old(self).spec_page_size()));
                    }
                }
                self.kv_map.insert(raw_buffer);
                proof {
                    if self.clean@ {
                        assert(self.kv_map@ == fold_history(self.io_writer.history()));
                    }
                }
                Ok(())
            },
            Err(e) => {
                self.clean = Ghost(false);
                Err(e)
            },
        }
    }

    /// Reads the latest record under `key`. A closed store holds nothing.
    pub fn get(&self, key: &str) -> (r: Result<&Buffer, Error>)
        requires
            self.inv(),
        ensures
            match r {
                Ok(b) => self.is_valid() && self@.contains_key(key@) && b@ == self@[key@],
                Err(e) => e == Error::KeyNotFound && (self.is_valid() ==> !self@.contains_key(
                    key@,
                )),
            },
    {
        if !self.is_valid {
            return Err(Error::KeyNotFound);
        }
        match self.kv_map.get(key) {
            Some(buffer) => Ok(buffer),
            None => Err(Error::KeyNotFound),
        }
    }

    /// Deletes `key`: a no-op when absent, else the index drops it and a
    /// tombstone frame is persisted.
    pub fn delete(&mut self, key: &str) -> (r: Result<(), Error>)
        requires
            old(self).inv(),
        ensures
            final(self).inv(),
            final(self).is_valid() == old(self).is_valid(),
            !old(self).is_valid() ==> r == Err::<(), Error>(Error::InstanceClosed) && final(self)@
                == old(self)@,
            old(self).is_valid() ==> match r {
                Ok(()) => {
                    &&& final(self)@ == old(self)@.remove(key@)
                    &&& old(self).clean_spec() ==> final(self).clean_spec()
                },
                Err(e) => final(self)@ == old(self)@ && (e is EncodeFailed || e is EncryptFailed
                    || e is IOError),
            },
            // deleting an absent key does no I/O and always succeeds
            old(self).is_valid() && !old(self)@.contains_key(key@) ==> r is Ok && final(self)@
                == old(self)@,
            // success is owed whenever the tombstone frame fits as the file stands
            ({
                let tomb = (BufModel {
                    key: key@,
                    typ: crate::types::spec_token_of(crate::types::Types::Deleted),
                    value: Seq::empty(),
                });
                old(self).is_valid() && crate::buffer::payload_of(tomb).len() + 8 <= u32::MAX - 4
                    && old(self).history().len() < u32::MAX && spec_write_offset(
                    old(self).file(),
                ) + crate::codec::frame_size(old(self).codec_model(), tomb) <= old(
                    self,
                ).file().len() ==> r is Ok
            }),
    {
        if !self.is_valid {
            return Err(Error::InstanceClosed);
        }
        let present = match self.kv_map.get(key) {
            Some(_) => true,
            None => false,
        };
        if !present {
            proof {
                assert(old(self)@.remove(key@) =~= old(self)@);
            }
            return Ok(());
        }
        let buffer = Buffer::deleted_buffer(key);
        proof {
            self.io_writer.lemma_position_counts_frames();
        }
        match self.io_writer.write(buffer, true) {
            Ok(()) => {
                self.kv_map.remove(key);
                Ok(())
            },
            Err(e) => {
                self.clean = Ghost(false);
                Err(e)
            },
        }
    }

    /// Closes the store and empties the index; the caller removes the data
    /// and meta files. Further puts and deletes fail with `InstanceClosed`;
    /// gets find nothing. Idempotent.
    pub fn clear_data(&mut self)
        requires
            old(self).inv(),
        ensures
            final(self).inv(),
            !final(self).is_valid(),
            final(self)@ == Map::<Seq<char>, BufModel>::empty(),
    {
        self.is_valid = false;
        self.kv_map.clear();
        self.clean = Ghost(false);
    }

    /// The write offset of the file image.
    pub fn write_offset(&self) -> (r: usize)
        requires
            self.inv(),
        ensures
            r == spec_write_offset(self.file()),
    {
        self.io_writer.write_offset()
    }

    /// The file's size.
    pub fn file_size(&self) -> (r: usize)
        requires
            self.inv(),
        ensures
            r == self.file().len(),
    {
        self.io_writer.file_size()
    }

    /// The next frame position: the number of frames in the file.
    pub fn position(&self) -> (r: u32)
        requires
            self.inv(),
        ensures
            r == self.history().len(),
    {
        self.io_writer.position()
    }

    /// A copy of the file image, for the caller to persist.
    pub fn file_bytes(&self) -> (r: Vec<u8>)
        ensures
            r@ == self.file(),
    {
        self.io_writer.file_bytes()
    }

    /// The keystream nonce to persist in the meta file, under encryption.
    pub fn nonce(&self) -> (r: Option<&Vec<u8>>)
        ensures
            match r {
                Some(n) => self.codec_model() matches CodecModel::Aead { key, nonce } && n@
                    == nonce,
                None => self.codec_model() is Crc,
            },
    {
        self.io_writer.nonce()
    }
}

/// Storing a record and reading its key back yields that record: what `put`
/// and `get` guarantee through the index map. The typed half of the round
/// trip is each kind's own law beside its serialiser.
pub proof fn lemma_store_read_back(idx: Map<Seq<char>, BufModel>, m: BufModel)
    ensures
        idx.insert(m.key, m).contains_key(m.key),
        idx.insert(m.key, m)[m.key] == m,
{
}

/// Reopening a clean store's file under the plain codec rebuilds exactly
/// its index: the file's frames fit only one history, and that history
/// replays to the index left behind.
pub proof fn lemma_reopen_rebuilds_index(s: &MmkvImpl, h: Seq<Option<BufModel>>)
    requires
        s.inv(),
        s.clean_spec(),
        s.codec_model() is Crc,
        blocks_rel(s.codec_model(), spec_content(s.file()), 0, h),
    ensures
        fold_history(h) == s@,
{
    s.lemma_clean_replay();
    lemma_replay_unique(s.codec_model(), spec_content(s.file()), h, s.history(), 0);
}

/// Deleting a key leaves it unreadable, and deleting it again changes
/// nothing: what `delete` guarantees through the index map.
pub proof fn lemma_delete_semantics(m: Map<Seq<char>, BufModel>, k: Seq<char>)
    ensures
        !m.remove(k).contains_key(k),
        m.remove(k).remove(k) == m.remove(k),
{
    assert(m.remove(k).remove(k) =~= m.remove(k));
}

/// Replay under the plain codec is a function of the bytes: two histories
/// fitting the same content are the same, so reopening a file rebuilds
/// exactly the index that was left behind.
pub proof fn lemma_replay_unique(c: CodecModel, content: Seq<u8>, h1: Seq<Option<BufModel>>, h2: Seq<
    Option<BufModel>,
>, pos: u32)
    requires
        c is Crc,
        blocks_rel(c, content, pos, h1),
        blocks_rel(c, content, pos, h2),
    ensures
        h1 == h2,
    decreases content.len(),
{
    if content.len() == 0 {
        assert(h1 =~= h2);
    } else {
        let n = crate::codec::frame_len(content) as int;
        lemma_replay_unique(c, content.skip(n), h1.skip(1), h2.skip(1), (pos + 1) as u32);
        assert(h1[0] == h2[0]);
        assert(h1.len() == 1 + h1.skip(1).len() && h2.len() == 1 + h2.skip(1).len());
        assert forall|i: int| 0 <= i < h1.len() implies h1[i] == h2[i] by {
            if i > 0 {
                assert(h1[i] == h1.skip(1)[i - 1]);
                assert(h2[i] == h2.skip(1)[i - 1]);
            }
        }
        assert(h1 =~= h2);
    }
}

/// A frame skipped on replay (torn or failing its check) contributes
/// nothing: the remaining records are recovered as if it were not there.
pub proof fn lemma_skipped_frame_ignored(h: Seq<Option<BufModel>>, i: int)
    requires
        0 <= i < h.len(),
        h[i] is None,
    ensures
        fold_history(h) == fold_history(h.remove(i)),
    decreases h.len(),
{
    if i == h.len() - 1 {
        assert(h.remove(i) =~= h.drop_last());
    } else {
        assert(h.remove(i).drop_last() =~= h.drop_last().remove(i));
        lemma_skipped_frame_ignored(h.drop_last(), i);
        assert(h.remove(i).last() == h.last());
    }
}

} // verus!
