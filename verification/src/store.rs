//! Durable, optimistically-concurrent persistence of named log cursors.
//!
//! `CursorStore` holds the pure protocol: path construction, writer
//! stamping, rendering and checking of the persisted record, and the mapping
//! of every backend outcome to a typed result. `MemoryBlobStore` is an
//! executable model of the conditional-write blob backend the protocol is
//! designed against: `get` returns bytes with a version token, `put` succeeds
//! only when its precondition (not-exists, or matches a given version)
//! holds. The surrounding process supplies the real backend and the
//! concurrency limiting at its edge.

use vstd::prelude::*;
use vstd::slice::slice_to_vec;
use vstd::string::StrSliceExecFns;

use crate::cursors::{path_of, Cursor, CursorName, ETag, LogPosition, Witness};
use crate::json::{cursor_json, dec_rep, encode_cursor, lemma_dec_rep_props, matches_record,
    parse_cursor_json, writer_encodable};
use crate::order::str_eq;
use vstd::string::StringSliceAdditionalSpecFns;

verus! {

/// The error kinds of the cursor store.
#[derive(Debug)]
pub enum Error {
    /// A stored cursor blob is missing its version token or does not parse;
    /// carries the cursor name and an explanation.
    CorruptCursor(String),
    /// `init` found the cursor already present; recoverable, treat as
    /// already initialized.
    ConflictOnCreate,
    /// `save` found a version other than the witness's; recoverable by
    /// reloading and retrying.
    ConflictOnUpdate,
    /// Any other backend failure, surfaced unchanged.
    Backend(String),
}

/// True when the error is a corrupt-cursor error whose message ends with
/// the cursor's name.
pub open spec fn corrupt_naming(e: Error, name: Seq<char>) -> bool {
    e matches Error::CorruptCursor(m) && name.len() <= m@.len() && m@.subrange(
        m@.len() - name.len(),
        m@.len() as int,
    ) == name
}

/// The version token the model backend hands out for version `v`.
pub open spec fn etag_chars(v: u64) -> Seq<char> {
    dec_rep(v as nat)
}

/// Law: version tokens never repeat — distinct versions render to distinct
/// tokens, so a witness taken before a later write can never match it.
pub proof fn lemma_etag_injective(a: u64, b: u64)
    requires
        a != b,
    ensures
        etag_chars(a) != etag_chars(b),
{
    lemma_dec_rep_props(a as nat);
    lemma_dec_rep_props(b as nat);
}

/// An executable model of a conditional-write blob store: each blob carries
/// the bytes and the version of its last write; versions count up and never
/// repeat.
pub struct MemoryBlobStore {
    blobs: Vec<(String, Vec<u8>, u64)>,
    next_version: u64,
}

impl View for MemoryBlobStore {
    type V = Map<Seq<char>, (Seq<u8>, u64)>;

    closed spec fn view(&self) -> Map<Seq<char>, (Seq<u8>, u64)> {
        Map::new(
            |p: Seq<char>|
                exists|i: int| 0 <= i < self.blobs@.len() && (#[trigger] self.blobs@[i]).0@ == p,
            |p: Seq<char>|
                {
                    let i = choose|i: int|
                        0 <= i < self.blobs@.len() && (#[trigger] self.blobs@[i]).0@ == p;
                    (self.blobs@[i].1@, self.blobs@[i].2)
                },
        )
    }
}

impl MemoryBlobStore {
    /// Paths are unique and every stored version lies below the next one to
    /// be handed out.
    pub closed spec fn wf(self) -> bool {
        &&& forall|i: int, j: int|
            0 <= i < j < self.blobs@.len() ==> (#[trigger] self.blobs@[i]).0@ != (
            #[trigger] self.blobs@[j]).0@
        &&& forall|i: int|
            0 <= i < self.blobs@.len() ==> (#[trigger] self.blobs@[i]).2 < self.next_version
    }

    /// The version the next successful write will carry; every stored
    /// version lies below it.
    pub closed spec fn fresh_bound(self) -> u64 {
        self.next_version
    }

    pub fn new() -> (r: Self)
        ensures
            r@ == Map::<Seq<char>, (Seq<u8>, u64)>::empty(),
            r.wf(),
            r.fresh_bound() == 1,
    {
        let r = MemoryBlobStore { blobs: Vec::new(), next_version: 1 };
        proof {
            assert(r@ =~= Map::<Seq<char>, (Seq<u8>, u64)>::empty());
        }
        r
    }

    /// The position of the blob at `path`, if any.
    fn find(&self, path: &str) -> (r: Option<usize>)
        requires
            self.wf(),
        ensures
            r matches Some(i) ==> i < self.blobs@.len() && self.blobs@[i as int].0@ == path@,
            r is None ==> !self@.contains_key(path@),
    {
        let n = self.blobs.len();
        let mut i: usize = 0;
        while i < n
            invariant
                0 <= i <= n,
                n == self.blobs@.len(),
                forall|j: int| 0 <= j < i ==> (#[trigger] self.blobs@[j]).0@ != path@,
            decreases n - i,
        {
            let entry = &self.blobs[i];
            if str_eq(entry.0.as_str(), path) {
                return Some(i);
            }
            i = i + 1;
        }
        proof {
            assert(!self@.contains_key(path@));
        }
        None
    }

    /// Fetches the blob and its version token; none when no blob is stored
    /// at `path`.
    pub fn get_with_e_tag(&self, path: &str) -> (r: Option<(Vec<u8>, ETag)>)
        requires
            self.wf(),
        ensures
            r is Some <==> self@.contains_key(path@),
            r matches Some(t) ==> t.0@ == self@[path@].0 && t.1.tag@ == etag_chars(self@[path@].1),
    {
        match self.find(path) {
            None => None,
            Some(i) => {
                let entry = &self.blobs[i];
                let data = slice_to_vec(entry.1.as_slice());
                let tag = crate::json::u64_to_dec(entry.2);
                proof {
                    let j = choose|j: int|
                        0 <= j < self.blobs@.len() && (#[trigger] self.blobs@[j]).0@ == path@;
                    assert(j == i);
                }
                Some((data, ETag { tag }))
            },
        }
    }

    /// Writes the blob only if none exists at `path`; on success returns the
    /// fresh version token, on conflict changes nothing.
    pub fn put_if_not_exists(&mut self, path: &str, data: &[u8]) -> (r: Option<ETag>)
        requires
            old(self).wf(),
            old(self).fresh_bound() < u64::MAX,
        ensures
            final(self).wf(),
            r is Some <==> !old(self)@.contains_key(path@),
            r is None ==> *final(self) == *old(self),
            r matches Some(t) ==> ({
                &&& t.tag@ == etag_chars(old(self).fresh_bound())
                &&& final(self)@ == old(self)@.insert(path@, (data@, old(self).fresh_bound()))
                &&& final(self).fresh_bound() == old(self).fresh_bound() + 1
            }),
    {
        match self.find(path) {
            Some(_) => {
                proof {
                    let i = choose|i: int|
                        0 <= i < self.blobs@.len() && (#[trigger] self.blobs@[i]).0@ == path@;
                    assert(self@.contains_key(path@));
                }
                None
            },
            None => {
                let v = self.next_version;
                let tag = crate::json::u64_to_dec(v);
                self.blobs.push((path.to_owned(), slice_to_vec(data), v));
                self.next_version = v + 1;
                proof {
                    let ghost olds = old(self).blobs@;
                    assert forall|p: Seq<char>| #[trigger] self@.contains_key(p) implies old(
                        self,
                    )@.insert(path@, (data@, v)).contains_key(p) by {
                        let i = choose|i: int|
                            0 <= i < self.blobs@.len() && (#[trigger] self.blobs@[i]).0@ == p;
                        if i < olds.len() {
                            assert(olds[i].0@ == p);
                        }
                    }
                    assert forall|p: Seq<char>| #[trigger] old(self)@.insert(
                        path@,
                        (data@, v),
                    ).contains_key(p) implies self@.contains_key(p) && self@[p] == old(self)@.insert(
                        path@,
                        (data@, v),
                    )[p] by {
                        if p == path@ {
                            let i = choose|i: int|
                                0 <= i < self.blobs@.len() && (#[trigger] self.blobs@[i]).0@ == p;
                            assert(self.blobs@[olds.len() as int].0@ == p);
                            assert(i == olds.len());
                        } else {
                            let i = choose|i: int|
                                0 <= i < olds.len() && (#[trigger] olds[i]).0@ == p;
                            assert(self.blobs@[i].0@ == p);
                            let j = choose|j: int|
                                0 <= j < self.blobs@.len() && (#[trigger] self.blobs@[j]).0@ == p;
                            assert(j == i);
                        }
                    }
                    assert(self@ =~= old(self)@.insert(path@, (data@, v)));
                }
                Some(ETag { tag })
            },
        }
    }

    /// Overwrites the blob only if its current version token equals
    /// `expected` — the compare-and-swap step. On success returns the fresh
    /// token; on mismatch or absence changes nothing.
    pub fn put_if_matches(&mut self, path: &str, data: &[u8], expected: &ETag) -> (r: Option<ETag>)
        requires
            old(self).wf(),
            old(self).fresh_bound() < u64::MAX,
        ensures
            final(self).wf(),
            r is Some <==> (old(self)@.contains_key(path@) && expected.tag@ == etag_chars(
                old(self)@[path@].1,
            )),
            r is None ==> *final(self) == *old(self),
            r matches Some(t) ==> ({
                &&& t.tag@ == etag_chars(old(self).fresh_bound())
                &&& final(self)@ == old(self)@.insert(path@, (data@, old(self).fresh_bound()))
                &&& final(self).fresh_bound() == old(self).fresh_bound() + 1
            }),
    {
        let found = self.find(path);
        match found {
            None => None,
            Some(i) => {
                proof {
                    let j = choose|j: int|
                        0 <= j < self.blobs@.len() && (#[trigger] self.blobs@[j]).0@ == path@;
                    assert(j == i);
                    assert(self@.contains_key(path@));
                }
                let stored_tag = crate::json::u64_to_dec(self.blobs[i].2);
                if !str_eq(stored_tag.as_str(), expected.tag.as_str()) {
                    return None;
                }
                let v = self.next_version;
                let tag = crate::json::u64_to_dec(v);
                let ghost olds = self.blobs@;
                self.blobs.remove(i);
                self.blobs.push((path.to_owned(), slice_to_vec(data), v));
                self.next_version = v + 1;
                proof {
                    let news = self.blobs@;
                    assert(news.len() == olds.len());
                    assert(forall|m: int|
                        0 <= m < olds.len() - 1 ==> #[trigger] news[m] == (if m < i {
                            olds[m]
                        } else {
                            olds[m + 1]
                        }));
                    assert(news[news.len() - 1].0@ == path@);
                    assert forall|m: int, n2: int| 0 <= m < n2 < news.len() implies (
                    #[trigger] news[m]).0@ != (#[trigger] news[n2]).0@ by {
                        if n2 == news.len() - 1 {
                            if m < i {
                                assert(olds[m].0@ != olds[i as int].0@);
                            } else {
                                assert(olds[m + 1].0@ != olds[i as int].0@);
                            }
                        }
                    }
                    assert forall|p: Seq<char>| #[trigger] self@.contains_key(p) implies old(
                        self,
                    )@.insert(path@, (data@, v)).contains_key(p) by {
                        let m = choose|m: int|
                            0 <= m < news.len() && (#[trigger] news[m]).0@ == p;
                        if m < news.len() - 1 {
                            if m < i {
                                assert(olds[m].0@ == p);
                            } else {
                                assert(olds[m + 1].0@ == p);
                            }
                        }
                    }
                    assert forall|p: Seq<char>| #[trigger] old(self)@.insert(
                        path@,
                        (data@, v),
                    ).contains_key(p) implies self@.contains_key(p) && self@[p] == old(self)@.insert(
                        path@,
                        (data@, v),
                    )[p] by {
                        if p == path@ {
                            assert(news[news.len() - 1].0@ == p);
                            let m = choose|m: int|
                                0 <= m < news.len() && (#[trigger] news[m]).0@ == p;
                            assert(m == news.len() - 1);
                        } else {
                            let m0 = choose|m: int|
                                0 <= m < olds.len() && (#[trigger] olds[m]).0@ == p;
                            assert(m0 != i);
                            if m0 < i {
                                assert(news[m0].0@ == p);
                            } else {
                                assert(news[m0 - 1].0@ == p);
                            }
                            let m = choose|m: int|
                                0 <= m < news.len() && (#[trigger] news[m]).0@ == p;
                            assert(news[m].0@ == p);
                            if m < i {
                                assert(olds[m].0@ == p);
                                assert(m == m0);
                            } else {
                                assert(m < news.len() - 1);
                                assert(olds[m + 1].0@ == p);
                                assert(m + 1 == m0);
                            }
                        }
                    }
                    assert(self@ =~= old(self)@.insert(path@, (data@, v)));
                }
                Some(ETag { tag })
            },
        }
    }
}


/// The stored bytes of a cursor record.
pub open spec fn cursor_blob(p: u64, e: u64, w: Seq<char>) -> Seq<u8> {
    vstd::utf8::encode_utf8(cursor_json(p as nat, e as nat, w))
}

/// Relies on std::str::from_utf8: succeeds exactly on valid UTF-8 and views
/// the same bytes as characters.
#[verifier::external_body]
fn bytes_as_str(b: &[u8]) -> (r: Option<&str>)
    ensures
        r is Some <==> vstd::utf8::valid_utf8(b@),
        r matches Some(s) ==> s.spec_bytes() == b@,
{
    std::str::from_utf8(b).ok()
}

/// Configuration of a cursor store: how many backend calls may be in flight
/// at once.
pub struct CursorStoreOptions {
    pub concurrency: usize,
}

/// The pure protocol of durable cursor persistence: path construction,
/// writer stamping, record rendering and checking, and the mapping of each
/// backend outcome to a typed result. The backend itself and the concurrency
/// limiter sized by `concurrency` live with the caller.
pub struct CursorStore {
    prefix: String,
    writer: String,
    concurrency: usize,
}

impl CursorStore {
    /// The path prefix this store writes under.
    pub closed spec fn prefix_view(self) -> Seq<char> {
        self.prefix@
    }

    /// The writer identity stamped on every write.
    pub closed spec fn writer_view(self) -> Seq<char> {
        self.writer@
    }

    /// The number of permits the caller's limiter should hold.
    pub closed spec fn concurrency_view(self) -> usize {
        self.concurrency
    }

    /// The blob path of a cursor under this store's prefix.
    pub open spec fn store_path(self, name: Seq<char>) -> Seq<char> {
        self.prefix_view() + "/"@ + path_of(name)
    }

    pub fn new(options: CursorStoreOptions, prefix: String, writer: String) -> (r: Self)
        ensures
            r.prefix_view() == prefix@,
            r.writer_view() == writer@,
            r.concurrency_view() == options.concurrency,
    {
        CursorStore { prefix, writer, concurrency: options.concurrency }
    }

    pub fn concurrency(&self) -> (r: usize)
        ensures
            r == self.concurrency_view(),
    {
        self.concurrency
    }

    /// Whether this store's writer identity can be persisted: `init` and
    /// `save` succeed only for a store whose writer the record can hold.
    pub fn writer_ok(&self) -> (r: bool)
        ensures
            r == writer_encodable(self.writer_view()),
    {
        crate::json::writer_fits(self.writer.as_str())
    }

    /// The full blob path of `name`.
    pub fn full_path(&self, name: &CursorName) -> (r: String)
        ensures
            r@ == self.store_path(name@),
    {
        let mut p = self.prefix.clone();
        p.append("/");
        let tail = name.path();
        p.append(tail.as_str());
        proof {
            assert(p@ =~= self.store_path(name@));
        }
        p
    }

    /// The cursor as it will be persisted: the writer field replaced with
    /// this store's writer identity.
    pub fn stamped(&self, cursor: &Cursor) -> (r: Cursor)
        ensures
            r.position == cursor.position,
            r.epoch_us == cursor.epoch_us,
            r.writer@ == self.writer_view(),
    {
        Cursor {
            position: cursor.position,
            epoch_us: cursor.epoch_us,
            writer: self.writer.clone(),
        }
    }

    /// A corrupt-cursor error naming the cursor.
    fn corrupt(reason: &str, name: &CursorName) -> (r: Error)
        ensures
            r is CorruptCursor,
            corrupt_naming(r, name@),
    {
        let mut m = reason.to_owned();
        m.append(name.as_str());
        proof {
            assert(m@.subrange(m@.len() - name@.len(), m@.len() as int) =~= name@);
        }
        Error::CorruptCursor(m)
    }

    /// The read side of the protocol, applied to what the backend returned:
    /// a missing version token or an unparsable body is a corrupt cursor; a
    /// well-formed record yields a witness pairing the token with the parsed
    /// cursor.
    pub fn interpret_load(&self, name: &CursorName, data: &[u8], e_tag: Option<ETag>) -> (r: Result<
        Witness,
        Error,
    >)
        ensures
            r is Ok <==> (e_tag is Some && vstd::utf8::valid_utf8(data@) && matches_record(
                vstd::utf8::decode_utf8(data@),
            )),
            r matches Ok(wit) ==> ({
                &&& e_tag matches Some(t) && wit.e_tag.tag@ == t.tag@
                &&& writer_encodable(wit.cursor.writer@)
                &&& data@ == cursor_blob(
                    wit.cursor.position.offset,
                    wit.cursor.epoch_us,
                    wit.cursor.writer@,
                )
            }),
            r matches Err(e) ==> e is CorruptCursor && corrupt_naming(e, name@),
    {
        proof {
            broadcast use vstd::utf8::encode_utf8_decode_utf8;

        }
        let t = match e_tag {
            None => {
                return Err(Self::corrupt("missing version token for cursor ", name));
            },
            Some(t) => t,
        };
        let s = match bytes_as_str(data) {
            None => {
                return Err(Self::corrupt("cursor body is not text for cursor ", name));
            },
            Some(s) => s,
        };
        match parse_cursor_json(s) {
            None => {
                proof {
                    assert(vstd::utf8::decode_utf8(data@) == s@);
                }
                Err(Self::corrupt("cannot parse cursor ", name))
            },
            Some((p, e, w)) => {
                proof {
                    assert(vstd::utf8::decode_utf8(data@) == s@);
                }
                Ok(
                    Witness {
                        e_tag: t,
                        cursor: Cursor {
                            position: LogPosition { offset: p },
                            epoch_us: e,
                            writer: w,
                        },
                    },
                )
            },
        }
    }

    /// Loads the cursor: fetches the blob with its version token and applies
    /// `interpret_load`. A missing blob is a backend failure, surfaced as
    /// such.
    pub fn load(&self, store: &MemoryBlobStore, name: &CursorName) -> (r: Result<Witness, Error>)
        requires
            store.wf(),
        ensures
            ({
                let path = self.store_path(name@);
                &&& !store@.contains_key(path) ==> (r matches Err(e) && e is Backend)
                &&& store@.contains_key(path) ==> ({
                    let pair = store@[path];
                    &&& (r is Ok <==> vstd::utf8::valid_utf8(pair.0) && matches_record(
                        vstd::utf8::decode_utf8(pair.0),
                    ))
                    &&& r matches Ok(wit) ==> ({
                        &&& wit.e_tag.tag@ == etag_chars(pair.1)
                        &&& pair.0 == cursor_blob(
                            wit.cursor.position.offset,
                            wit.cursor.epoch_us,
                            wit.cursor.writer@,
                        )
                    })
                    &&& (r matches Err(e) ==> e is CorruptCursor && corrupt_naming(e, name@))
                })
            }),
    {
        let path = self.full_path(name);
        match store.get_with_e_tag(path.as_str()) {
            None => {
                let mut m = String::from_str("no cursor blob at ");
                m.append(path.as_str());
                Err(Error::Backend(m))
            },
            Some((data, tag)) => self.interpret_load(name, data.as_slice(), Some(tag)),
        }
    }

    /// The write side shared by `init` and `save`: stamps the cursor with
    /// this store's writer identity and renders it; an unencodable writer is
    /// a corrupt cursor.
    fn prepare_put(&self, name: &CursorName, cursor: &Cursor) -> (r: Result<
        (String, Vec<u8>, Cursor),
        Error,
    >)
        ensures
            r is Ok <==> writer_encodable(self.writer_view()),
            r matches Ok(t) ==> ({
                &&& t.0@ == self.store_path(name@)
                &&& t.1@ == cursor_blob(
                    cursor.position.offset,
                    cursor.epoch_us,
                    self.writer_view(),
                )
                &&& t.2.position == cursor.position
                &&& t.2.epoch_us == cursor.epoch_us
                &&& t.2.writer@ == self.writer_view()
            }),
            r matches Err(e) ==> e is CorruptCursor && corrupt_naming(e, name@),
    {
        let stamped = self.stamped(cursor);
        let body = match encode_cursor(
            stamped.position.offset,
            stamped.epoch_us,
            stamped.writer.as_str(),
        ) {
            None => {
                return Err(Self::corrupt("cannot serialize cursor ", name));
            },
            Some(body) => body,
        };
        let path = self.full_path(name);
        let bytes = body.as_str().as_bytes_vec();
        Ok((path, bytes, stamped))
    }

    /// Creates the cursor blob only if none exists: the "if-not-exists"
    /// conditional write. An existing blob is a create conflict; an
    /// unencodable writer identity is a corrupt cursor; otherwise the write
    /// lands and the fresh witness is returned.
    pub fn init(&self, store: &mut MemoryBlobStore, name: &CursorName, cursor: &Cursor) -> (r:
        Result<Witness, Error>)
        requires
            old(store).wf(),
            old(store).fresh_bound() < u64::MAX,
        ensures
            final(store).wf(),
            ({
                let path = self.store_path(name@);
                let blob = cursor_blob(
                    cursor.position.offset,
                    cursor.epoch_us,
                    self.writer_view(),
                );
                &&& !writer_encodable(self.writer_view()) ==> (r matches Err(e) && e
                    is CorruptCursor && corrupt_naming(e, name@) && *final(store) == *old(store))
                &&& writer_encodable(self.writer_view()) && old(store)@.contains_key(path) ==> (
                r matches Err(e) && e is ConflictOnCreate && *final(store) == *old(store))
                &&& writer_encodable(self.writer_view()) && !old(store)@.contains_key(path) ==> ({
                    &&& final(store)@ == old(store)@.insert(
                        path,
                        (blob, old(store).fresh_bound()),
                    )
                    &&& r matches Ok(wit) && wit.e_tag.tag@ == etag_chars(
                        old(store).fresh_bound(),
                    ) && wit.cursor.position == cursor.position && wit.cursor.epoch_us
                        == cursor.epoch_us && wit.cursor.writer@ == self.writer_view()
                })
            }),
    {
        let (path, bytes, stamped) = match self.prepare_put(name, cursor) {
            Err(err) => {
                return Err(err);
            },
            Ok(t) => t,
        };
        match store.put_if_not_exists(path.as_str(), bytes.as_slice()) {
            None => Err(Error::ConflictOnCreate),
            Some(tag) => Ok(Witness { e_tag: tag, cursor: stamped }),
        }
    }

    /// Overwrites the cursor blob only if its current version token equals
    /// the witness's: the compare-and-swap step. A mismatch is an update
    /// conflict, signalling the caller to reload and retry with a fresh
    /// witness.
    pub fn save(
        &self,
        store: &mut MemoryBlobStore,
        name: &CursorName,
        cursor: &Cursor,
        witness: &Witness,
    ) -> (r: Result<Witness, Error>)
        requires
            old(store).wf(),
            old(store).fresh_bound() < u64::MAX,
        ensures
            final(store).wf(),
            ({
                let path = self.store_path(name@);
                let blob = cursor_blob(
                    cursor.position.offset,
                    cursor.epoch_us,
                    self.writer_view(),
                );
                let matches_current = old(store)@.contains_key(path) && witness.e_tag.tag@
                    == etag_chars(old(store)@[path].1);
                &&& !writer_encodable(self.writer_view()) ==> (r matches Err(e) && e
                    is CorruptCursor && corrupt_naming(e, name@) && *final(store) == *old(store))
                &&& writer_encodable(self.writer_view()) && !matches_current ==> (
                r matches Err(e) && e is ConflictOnUpdate && *final(store) == *old(store))
                &&& writer_encodable(self.writer_view()) && matches_current ==> ({
                    &&& final(store)@ == old(store)@.insert(
                        path,
                        (blob, old(store).fresh_bound()),
                    )
                    &&& r matches Ok(wit) && wit.e_tag.tag@ == etag_chars(
                        old(store).fresh_bound(),
                    ) && wit.cursor.position == cursor.position && wit.cursor.epoch_us
                        == cursor.epoch_us && wit.cursor.writer@ == self.writer_view()
                })
            }),
    {
        let (path, bytes, stamped) = match self.prepare_put(name, cursor) {
            Err(err) => {
                return Err(err);
            },
            Ok(t) => t,
        };
        match store.put_if_matches(path.as_str(), bytes.as_slice(), &witness.e_tag) {
            None => Err(Error::ConflictOnUpdate),
            Some(tag) => Ok(Witness { e_tag: tag, cursor: stamped }),
        }
    }
}

/// Law (repeated `init`): once a first `init` has installed the blob at a
/// path the backend did not know, the path is occupied, so by `init`'s
/// contract a second `init` of the same name meets the occupied case and
/// returns the create conflict.
pub proof fn lemma_second_init_conflicts(
    m: Map<Seq<char>, (Seq<u8>, u64)>,
    path: Seq<char>,
    blob: Seq<u8>,
    v: u64,
)
    requires
        !m.contains_key(path),
    ensures
        m.insert(path, (blob, v)).contains_key(path),
{
}

/// Law (stale witness): a successful `save` stores a strictly fresher
/// version, and version tokens are injective, so a witness taken before that
/// save no longer matches the stored token — by `save`'s contract it meets
/// the conflict case — while the witness the save returned matches exactly.
pub proof fn lemma_stale_witness_conflicts(
    m: Map<Seq<char>, (Seq<u8>, u64)>,
    path: Seq<char>,
    blob: Seq<u8>,
    stale: u64,
    fresh: u64,
)
    requires
        stale < fresh,
    ensures
        ({
            let m2 = m.insert(path, (blob, fresh));
            &&& m2.contains_key(path)
            &&& m2[path].1 == fresh
            &&& etag_chars(stale) != etag_chars(m2[path].1)
            &&& etag_chars(fresh) == etag_chars(m2[path].1)
        }),
{
    lemma_etag_injective(stale, fresh);
}

} // verus!
