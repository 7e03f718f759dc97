//! The song catalog: the song table and the inverted fingerprint index.
//!
//! Songs get consecutive ids starting at 1.  The index maps each fingerprint
//! hash to its list of postings; posting insertion is idempotent on the
//! triple (hash, anchor time, song), and every posting refers to a stored
//! song (referential integrity is part of the catalog's well-formedness).

use vstd::prelude::*;
use crate::assoc::{nested_view, seq_contains_key, seq_insert, seq_value_of, OrderedMap};
use crate::declarations::NO_SONG_MATCH_ERROR;
use crate::fingerprint::KeyAudioPoint;
use vstd::string::StringExecFns;

verus! {

/// A catalog entry.  `song_key` is `title + "---" + artist`, a secondary
/// lookup alias; `id` is the stable primary key.
pub struct Song {
    pub id: i32,
    pub title: String,
    pub artist: String,
    pub spotify_uri: Option<String>,
    pub song_key: String,
}

impl Song {
    /// A field-by-field copy.
    pub fn duplicate(&self) -> (s: Song)
        ensures
            s == *self,
    {
        Song {
            id: self.id,
            title: self.title.clone(),
            artist: self.artist.clone(),
            spotify_uri: match &self.spotify_uri {
                Some(u) => Some(u.clone()),
                None => None,
            },
            song_key: self.song_key.clone(),
        }
    }
}

/// Whether a posting already occurs in a list.
pub open spec fn posting_in(list: Seq<KeyAudioPoint>, p: KeyAudioPoint) -> bool {
    exists|i: int| 0 <= i < list.len() && list[i] == p
}

/// Appends a posting unless the identical posting is already there.
pub open spec fn add_posting(list: Seq<KeyAudioPoint>, p: KeyAudioPoint) -> Seq<KeyAudioPoint> {
    if posting_in(list, p) {
        list
    } else {
        list.push(p)
    }
}

/// The posting list stored under a hash; absent hashes have an empty list.
pub open spec fn postings_at(iv: Seq<(u32, Seq<KeyAudioPoint>)>, h: u32) -> Seq<KeyAudioPoint> {
    if seq_contains_key(iv, h) {
        seq_value_of(iv, h)
    } else {
        Seq::empty()
    }
}

/// One posting insertion at the index level.
pub open spec fn insert_posting_spec(
    iv: Seq<(u32, Seq<KeyAudioPoint>)>,
    h: u32,
    p: KeyAudioPoint,
) -> Seq<(u32, Seq<KeyAudioPoint>)> {
    seq_insert(iv, h, add_posting(postings_at(iv, h), p))
}

/// The index after storing the first `j` entries of a fingerprint map.
pub open spec fn store_fps_spec(
    iv: Seq<(u32, Seq<KeyAudioPoint>)>,
    fps: Seq<(u32, KeyAudioPoint)>,
    j: int,
) -> Seq<(u32, Seq<KeyAudioPoint>)>
    decreases j,
{
    if j <= 0 {
        iv
    } else {
        insert_posting_spec(store_fps_spec(iv, fps, j - 1), fps[j - 1].0, fps[j - 1].1)
    }
}

/// The lookup result for the first `j` requested hashes: each hash mapped to
/// its posting list, an empty list for hashes absent from the index.
pub open spec fn lookup_spec(
    iv: Seq<(u32, Seq<KeyAudioPoint>)>,
    hashes: Seq<u32>,
    j: int,
) -> Seq<(u32, Seq<KeyAudioPoint>)>
    decreases j,
{
    if j <= 0 {
        Seq::empty()
    } else {
        seq_insert(lookup_spec(iv, hashes, j - 1), hashes[j - 1], postings_at(iv, hashes[j - 1]))
    }
}

/// A posting stays in a list that only ever appends.
proof fn lemma_add_posting_keeps(list: Seq<KeyAudioPoint>, q: KeyAudioPoint, p: KeyAudioPoint)
    requires
        posting_in(list, p),
    ensures
        posting_in(add_posting(list, q), p),
{
    let i = choose|i: int| 0 <= i < list.len() && list[i] == p;
    assert(add_posting(list, q)[i] == p);
}

/// Storing fingerprints keeps the index keys pairwise distinct.
#[verifier::spinoff_prover]
pub proof fn lemma_store_unique(
    iv: Seq<(u32, Seq<KeyAudioPoint>)>,
    fps: Seq<(u32, KeyAudioPoint)>,
    j: int,
)
    requires
        crate::assoc::keys_unique(iv),
        0 <= j,
    ensures
        crate::assoc::keys_unique(store_fps_spec(iv, fps, j)),
    decreases j,
{
    if j > 0 {
        lemma_store_unique(iv, fps, j - 1);
        let prev = store_fps_spec(iv, fps, j - 1);
        let h0 = fps[j - 1].0;
        let p0 = fps[j - 1].1;
        crate::assoc::lemma_seq_insert_at(prev, h0, add_posting(postings_at(prev, h0), p0), h0);
    }
}

/// Storing more fingerprints never removes a posting.
#[verifier::spinoff_prover]
pub proof fn lemma_store_keeps_posting(
    iv: Seq<(u32, Seq<KeyAudioPoint>)>,
    fps: Seq<(u32, KeyAudioPoint)>,
    j: int,
    h: u32,
    p: KeyAudioPoint,
)
    requires
        crate::assoc::keys_unique(iv),
        posting_in(postings_at(iv, h), p),
        0 <= j,
    ensures
        crate::assoc::keys_unique(store_fps_spec(iv, fps, j)),
        posting_in(postings_at(store_fps_spec(iv, fps, j), h), p),
    decreases j,
{
    if j > 0 {
        lemma_store_keeps_posting(iv, fps, j - 1, h, p);
        let prev = store_fps_spec(iv, fps, j - 1);
        let h0 = fps[j - 1].0;
        let p0 = fps[j - 1].1;
        crate::assoc::lemma_seq_insert_at(prev, h0, add_posting(postings_at(prev, h0), p0), h);
        if h == h0 {
            lemma_add_posting_keeps(postings_at(prev, h0), p0, p);
        }
    }
}

/// Every posting of a stored fingerprint map is in the index afterward.
#[verifier::spinoff_prover]
pub proof fn lemma_store_adds_posting(
    iv: Seq<(u32, Seq<KeyAudioPoint>)>,
    fps: Seq<(u32, KeyAudioPoint)>,
    j: int,
    e: int,
)
    requires
        crate::assoc::keys_unique(iv),
        0 <= e < j,
    ensures
        crate::assoc::keys_unique(store_fps_spec(iv, fps, j)),
        posting_in(postings_at(store_fps_spec(iv, fps, j), fps[e].0), fps[e].1),
    decreases j,
{
    let prev = store_fps_spec(iv, fps, j - 1);
    let h0 = fps[j - 1].0;
    let p0 = fps[j - 1].1;
    lemma_store_unique(iv, fps, j - 1);
    if e == j - 1 {
        crate::assoc::lemma_seq_insert_at(prev, h0, add_posting(postings_at(prev, h0), p0), h0);
        let list = postings_at(prev, h0);
        if posting_in(list, p0) {
            lemma_add_posting_keeps(list, p0, p0);
        } else {
            assert(add_posting(list, p0)[list.len() as int] == p0);
            assert(posting_in(add_posting(list, p0), p0));
        }
    } else {
        lemma_store_adds_posting(iv, fps, j - 1, e);
        crate::assoc::lemma_seq_insert_at(prev, h0, add_posting(postings_at(prev, h0), p0), fps[e].0);
        if fps[e].0 == h0 {
            lemma_add_posting_keeps(postings_at(prev, h0), p0, fps[e].1);
        }
    }
}

/// Copies a posting list.
fn clone_postings(v: &Vec<KeyAudioPoint>) -> (r: Vec<KeyAudioPoint>)
    ensures
        r@ == v@,
{
    let mut r: Vec<KeyAudioPoint> = Vec::new();
    let mut i: usize = 0;
    while i < v.len()
        invariant
            i <= v@.len(),
            r@ == v@.subrange(0, i as int),
        decreases v@.len() - i,
    {
        r.push(v[i]);
        proof {
            assert(r@ =~= v@.subrange(0, i as int + 1));
        }
        i = i + 1;
    }
    proof {
        assert(r@ =~= v@);
    }
    r
}

/// The in-memory catalog.
pub struct Catalog {
    pub songs: Vec<Song>,
    pub index: OrderedMap<Vec<KeyAudioPoint>>,
}

impl Catalog {
    /// Well-formed: songs carry their 1-based position as id, index keys are
    /// unique, and every posting points at a stored song with a non-negative
    /// anchor time.
    pub open spec fn wf(&self) -> bool {
        &&& self.index.wf()
        &&& self.songs@.len() < 0x80000000
        &&& forall|i: int| 0 <= i < self.songs@.len() ==> (#[trigger] self.songs@[i]).id == i + 1
        &&& forall|i: int, j: int|
            0 <= i < self.index@.len() && 0 <= j < self.index@[i].1@.len() ==> {
                let p = #[trigger] self.index@[i].1@[j];
                1 <= p.song_id <= self.songs@.len() && p.anchor_time_ms >= 0
            }
    }

    /// An empty catalog.
    pub fn new() -> (c: Catalog)
        ensures
            c.wf(),
            c.songs@.len() == 0,
            c.index@.len() == 0,
    {
        Catalog { songs: Vec::new(), index: OrderedMap::new() }
    }

    /// Stores a new song and assigns it the next id.
    pub fn store_song(
        &mut self,
        title: &String,
        artist: &String,
        spotify_uri: Option<String>,
    ) -> (r: Result<u32, u8>)
        requires
            old(self).wf(),
            old(self).songs@.len() < 0x7FFFFFFF,
        ensures
            r is Ok,
            final(self).wf(),
            r->Ok_0 == old(self).songs@.len() + 1,
            final(self).index == old(self).index,
            final(self).songs@.len() == old(self).songs@.len() + 1,
            forall|i: int|
                0 <= i < old(self).songs@.len() ==> final(self).songs@[i] == old(self).songs@[i],
            ({
                let s = final(self).songs@.last();
                &&& s.id == old(self).songs@.len() + 1
                &&& s.title@ == title@
                &&& s.artist@ == artist@
                &&& s.spotify_uri == spotify_uri
                &&& s.song_key@ == title@ + "---"@ + artist@
            }),
    {
        let id: usize = self.songs.len() + 1;
        let song_key: String = title.clone().concat("---").concat(artist.as_str());
        self.songs.push(
            Song {
                id: id as i32,
                title: title.clone(),
                artist: artist.clone(),
                spotify_uri,
                song_key,
            },
        );
        Ok(id as u32)
    }

    /// Fetches a song by id; `NO_SONG_MATCH_ERROR` when no such id exists.
    pub fn get_song_by_id(&self, song_id: u32) -> (r: Result<Song, u8>)
        requires
            self.wf(),
        ensures
            r is Ok <==> 1 <= song_id <= self.songs@.len(),
            r is Ok ==> r->Ok_0 == self.songs@[song_id as int - 1],
            r is Err ==> r->Err_0 == NO_SONG_MATCH_ERROR,
    {
        if song_id >= 1 && (song_id as usize) <= self.songs.len() {
            let idx: usize = (song_id as usize) - 1;
            Ok(self.songs[idx].duplicate())
        } else {
            Err(NO_SONG_MATCH_ERROR)
        }
    }

    /// Stores every posting of a fingerprint map, idempotently per
    /// (hash, anchor time, song) triple.
    pub fn store_fingerprints(
        &mut self,
        fingerprint_map: &OrderedMap<KeyAudioPoint>,
    ) -> (r: Result<(), u8>)
        requires
            old(self).wf(),
            fingerprint_map.wf(),
            forall|e: int|
                0 <= e < fingerprint_map@.len() ==> {
                    let p = (#[trigger] fingerprint_map@[e]).1;
                    1 <= p.song_id <= old(self).songs@.len() && p.anchor_time_ms >= 0
                },
        ensures
            r is Ok,
            final(self).wf(),
            final(self).songs == old(self).songs,
            nested_view(final(self).index@) == store_fps_spec(
                nested_view(old(self).index@),
                fingerprint_map@,
                fingerprint_map@.len() as int,
            ),
    {
        let n: usize = fingerprint_map.len();
        let mut e: usize = 0;
        while e < n
            invariant
                n == fingerprint_map@.len(),
                e <= n,
                fingerprint_map.wf(),
                forall|q: int|
                    0 <= q < fingerprint_map@.len() ==> {
                        let p = (#[trigger] fingerprint_map@[q]).1;
                        1 <= p.song_id <= old(self).songs@.len() && p.anchor_time_ms >= 0
                    },
                self.wf(),
                self.songs == old(self).songs,
                nested_view(self.index@) == store_fps_spec(
                    nested_view(old(self).index@),
                    fingerprint_map@,
                    e as int,
                ),
            decreases n - e,
        {
            let h: u32 = fingerprint_map.entries[e].0;
            let p: KeyAudioPoint = fingerprint_map.entries[e].1;
            let ghost pre = nested_view(self.index@);
            match self.index.index_of(h) {
                Some(i) => {
                    let mut found: bool = false;
                    let list_len: usize = self.index.entries[i].1.len();
                    let mut q: usize = 0;
                    while q < list_len
                        invariant
                            i < self.index@.len(),
                            list_len == self.index@[i as int].1@.len(),
                            q <= list_len,
                            found <==> exists|t: int|
                                0 <= t < q as int && self.index@[i as int].1@[t] == p,
                        decreases list_len - q,
                    {
                        if self.index.entries[i].1[q] == p {
                            found = true;
                        }
                        q = q + 1;
                    }
                    if !found {
                        let mut list: Vec<KeyAudioPoint> = clone_postings(&self.index.entries[i].1);
                        list.push(p);
                        proof {
                            crate::assoc::lemma_nested_view_keys(self.index@, h);
                            assert(postings_at(pre, h) == self.index@[i as int].1@);
                            crate::assoc::lemma_nested_view_insert(self.index@, h, list);
                        }
                        self.index.insert(h, list);
                        proof {
                            assert(nested_view(self.index@) == insert_posting_spec(pre, h, p));
                        }
                    } else {
                        proof {
                            crate::assoc::lemma_nested_view_keys(self.index@, h);
                            assert(postings_at(pre, h) == self.index@[i as int].1@);
                            assert(add_posting(postings_at(pre, h), p) == postings_at(pre, h));
                            assert(nested_view(self.index@) =~~= seq_insert(
                                pre,
                                h,
                                postings_at(pre, h),
                            ));
                            assert(nested_view(self.index@) == insert_posting_spec(pre, h, p));
                        }
                    }
                },
                None => {
                    let mut list: Vec<KeyAudioPoint> = Vec::new();
                    list.push(p);
                    proof {
                        crate::assoc::lemma_nested_view_keys(self.index@, h);
                        assert(postings_at(pre, h) =~= Seq::<KeyAudioPoint>::empty());
                        assert(add_posting(postings_at(pre, h), p) =~= list@);
                        crate::assoc::lemma_nested_view_insert(self.index@, h, list);
                    }
                    self.index.insert(h, list);
                    proof {
                        assert(nested_view(self.index@) == insert_posting_spec(pre, h, p));
                    }
                },
            }
            e = e + 1;
        }
        Ok(())
    }

    /// Looks up the posting lists of the requested hashes; a hash absent
    /// from the index gets an empty list.
    pub fn get_key_audio_points(&self, hashes: &Vec<u32>) -> (r: OrderedMap<Vec<KeyAudioPoint>>)
        requires
            self.wf(),
        ensures
            r.wf(),
            nested_view(r@) == lookup_spec(nested_view(self.index@), hashes@, hashes@.len() as int),
            forall|i: int, j: int|
                0 <= i < r@.len() && 0 <= j < r@[i].1@.len() ==> {
                    let p = #[trigger] r@[i].1@[j];
                    1 <= p.song_id <= self.songs@.len() && p.anchor_time_ms >= 0
                },
    {
        let mut out: OrderedMap<Vec<KeyAudioPoint>> = OrderedMap::new();
        let n: usize = hashes.len();
        let mut e: usize = 0;
        while e < n
            invariant
                n == hashes@.len(),
                e <= n,
                self.wf(),
                out.wf(),
                nested_view(out@) == lookup_spec(nested_view(self.index@), hashes@, e as int),
                forall|i: int, j: int|
                    0 <= i < out@.len() && 0 <= j < out@[i].1@.len() ==> {
                        let p = #[trigger] out@[i].1@[j];
                        1 <= p.song_id <= self.songs@.len() && p.anchor_time_ms >= 0
                    },
            decreases n - e,
        {
            let h: u32 = hashes[e];
            let ghost pre = nested_view(out@);
            let list: Vec<KeyAudioPoint> = match self.index.index_of(h) {
                Some(i) => {
                    proof {
                        crate::assoc::lemma_nested_view_keys(self.index@, h);
                    }
                    clone_postings(&self.index.entries[i].1)
                },
                None => {
                    proof {
                        crate::assoc::lemma_nested_view_keys(self.index@, h);
                        assert(postings_at(nested_view(self.index@), h) =~= Seq::<
                            KeyAudioPoint,
                        >::empty());
                    }
                    Vec::new()
                },
            };
            proof {
                assert(list@ == postings_at(nested_view(self.index@), h));
                crate::assoc::lemma_nested_view_insert(out@, h, list);
            }
            out.insert(h, list);
            proof {
                assert(nested_view(out@) == lookup_spec(
                    nested_view(self.index@),
                    hashes@,
                    e as int + 1,
                ));
            }
            e = e + 1;
        }
        out
    }

    /// Sets the external uri of every song whose `song_key` matches
    /// `title + "---" + artist`.
    pub fn update_song_uri(
        &mut self,
        song_title: &String,
        song_artist: &String,
        uri: String,
    ) -> (r: Result<(), u8>)
        requires
            old(self).wf(),
        ensures
            r is Ok,
            final(self).wf(),
            final(self).index == old(self).index,
            final(self).songs@.len() == old(self).songs@.len(),
            forall|i: int|
                0 <= i < old(self).songs@.len() ==> {
                    let o = old(self).songs@[i];
                    let s = #[trigger] final(self).songs@[i];
                    if o.song_key@ == song_title@ + "---"@ + song_artist@ {
                        s.id == o.id && s.title == o.title && s.artist == o.artist && s.song_key
                            == o.song_key && (s.spotify_uri matches Some(u) && u@ == uri@)
                    } else {
                        s == o
                    }
                },
    {
        let key: String = song_title.clone().concat("---").concat(song_artist.as_str());
        let n: usize = self.songs.len();
        let mut i: usize = 0;
        while i < n
            invariant
                n == self.songs@.len(),
                i <= n,
                self.wf(),
                self.index == old(self).index,
                self.songs@.len() == old(self).songs@.len(),
                key@ == song_title@ + "---"@ + song_artist@,
                forall|q: int| i as int <= q < n as int ==> #[trigger] self.songs@[q] == old(
                    self,
                ).songs@[q],
                forall|q: int|
                    0 <= q < i as int ==> {
                        let o = old(self).songs@[q];
                        let s = #[trigger] self.songs@[q];
                        if o.song_key@ == song_title@ + "---"@ + song_artist@ {
                            s.id == o.id && s.title == o.title && s.artist == o.artist
                                && s.song_key == o.song_key && (s.spotify_uri matches Some(u)
                                && u@ == uri@)
                        } else {
                            s == o
                        }
                    },
            decreases n - i,
        {
            if self.songs[i].song_key == key {
                let mut ns: Song = self.songs[i].duplicate();
                ns.spotify_uri = Some(uri.clone());
                self.songs.set(i, ns);
            }
            i = i + 1;
        }
        Ok(())
    }
}

} // verus!
