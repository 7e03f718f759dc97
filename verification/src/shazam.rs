//! The matcher: looks the query's hashes up in the catalog, collects
//! (query time, catalog time) pairs per candidate song, scores each
//! candidate by the largest cluster of coherent time offsets (a histogram
//! over 100 ms bins), and ranks the candidates by score, ties broken by the
//! order in which candidates were first encountered.

use vstd::prelude::*;
use crate::assoc::{
    copy_vec, keys_unique, lemma_nested_view_insert, lemma_nested_view_keys, nested_view,
    seq_contains_key, seq_index_of_key, seq_insert, seq_value_of, OrderedMap,
};
use crate::catalog::{lookup_spec, postings_at, Catalog};
use crate::fingerprint::KeyAudioPoint;
use crate::math::tdiv;

verus! {

/// The keys of a query map, in entry order.
fn keys_of<V>(m: &OrderedMap<V>) -> (r: Vec<u32>)
    ensures
        r@.len() == m@.len(),
        forall|e: int| 0 <= e < m@.len() ==> r@[e] == (#[trigger] m@[e]).0,
{
    let mut r: Vec<u32> = Vec::new();
    let n: usize = m.len();
    let mut e: usize = 0;
    while e < n
        invariant
            n == m@.len(),
            e <= n,
            r@.len() == e as int,
            forall|q: int| 0 <= q < e as int ==> r@[q] == (#[trigger] m@[q]).0,
        decreases n - e,
    {
        r.push(m.entries[e].0);
        e = e + 1;
    }
    r
}

/// The query a fingerprint map induces: each hash with the anchor time of
/// its posting.
pub open spec fn query_of(fps: Seq<(u32, KeyAudioPoint)>) -> Seq<(u32, u32)> {
    Seq::new(fps.len(), |e: int| (fps[e].0, fps[e].1.anchor_time_ms as u32))
}

/// Turns a recording's fingerprint map into a query: each hash mapped to
/// its anchor time in milliseconds.
pub fn fingerprint_to_query(fp: &OrderedMap<KeyAudioPoint>) -> (r: OrderedMap<u32>)
    requires
        fp.wf(),
    ensures
        r.wf(),
        r@ == query_of(fp@),
{
    let mut r: OrderedMap<u32> = OrderedMap::new();
    let n: usize = fp.len();
    let mut e: usize = 0;
    while e < n
        invariant
            n == fp@.len(),
            e <= n,
            fp.wf(),
            r.wf(),
            r@.len() == e as int,
            forall|q: int|
                0 <= q < e as int ==> (#[trigger] r@[q]).0 == fp@[q].0
                    && r@[q].1 == fp@[q].1.anchor_time_ms as u32,
        decreases n - e,
    {
        let h: u32 = fp.entries[e].0;
        let t: u32 = fp.entries[e].1.anchor_time_ms as u32;
        proof {
            assert(!seq_contains_key(r@, h)) by {
                if seq_contains_key(r@, h) {
                    let w = seq_index_of_key(r@, h);
                    assert(0 <= w < r@.len() && r@[w].0 == h);
                    assert(fp@[w].0 == h == fp@[e as int].0);
                }
            }
        }
        r.insert(h, t);
        e = e + 1;
    }
    proof {
        assert(r@ =~= query_of(fp@));
    }
    r
}

/// Adds one (query time, catalog time) pair to a candidate's bucket; a new
/// candidate gets a fresh bucket at the end.
pub open spec fn bucket_add(
    acc: Seq<(u32, Seq<(u32, u32)>)>,
    song: u32,
    pair: (u32, u32),
) -> Seq<(u32, Seq<(u32, u32)>)> {
    if seq_contains_key(acc, song) {
        let i = seq_index_of_key(acc, song);
        acc.update(i, (song, acc[i].1.push(pair)))
    } else {
        acc.push((song, Seq::empty().push(pair)))
    }
}

/// Folds the first `j` postings of one hash into the buckets.
pub open spec fn gather_postings(
    acc: Seq<(u32, Seq<(u32, u32)>)>,
    sample_ms: u32,
    plist: Seq<KeyAudioPoint>,
    j: int,
) -> Seq<(u32, Seq<(u32, u32)>)>
    decreases j,
{
    if j <= 0 {
        acc
    } else {
        bucket_add(
            gather_postings(acc, sample_ms, plist, j - 1),
            plist[j - 1].song_id as u32,
            (sample_ms, plist[j - 1].anchor_time_ms as u32),
        )
    }
}

/// The buckets after the first `e` query entries: for each posting of each
/// query hash, the pair (query anchor time, catalog anchor time) under the
/// posting's song.
pub open spec fn gather_spec(
    iv: Seq<(u32, Seq<KeyAudioPoint>)>,
    query: Seq<(u32, u32)>,
    e: int,
) -> Seq<(u32, Seq<(u32, u32)>)>
    decreases e,
{
    if e <= 0 {
        Seq::empty()
    } else {
        let plist = postings_at(iv, query[e - 1].0);
        gather_postings(gather_spec(iv, query, e - 1), query[e - 1].1, plist, plist.len() as int)
    }
}

/// With pairwise distinct hashes the lookup result is one entry per hash,
/// in order.
proof fn lemma_lookup_unique(iv: Seq<(u32, Seq<KeyAudioPoint>)>, hs: Seq<u32>, j: int)
    requires
        forall|a: int, b: int| 0 <= a < b < hs.len() ==> hs[a] != hs[b],
        0 <= j <= hs.len(),
    ensures
        lookup_spec(iv, hs, j).len() == j,
        forall|e: int|
            0 <= e < j ==> (#[trigger] lookup_spec(iv, hs, j)[e]).0 == hs[e] && lookup_spec(
                iv,
                hs,
                j,
            )[e].1 == postings_at(iv, hs[e]),
    decreases j,
{
    if j > 0 {
        lemma_lookup_unique(iv, hs, j - 1);
        let prev = lookup_spec(iv, hs, j - 1);
        assert(!seq_contains_key(prev, hs[j - 1])) by {
            if seq_contains_key(prev, hs[j - 1]) {
                let w = seq_index_of_key(prev, hs[j - 1]);
                assert(0 <= w < prev.len() && prev[w].0 == hs[j - 1]);
                assert(hs[w] == hs[j - 1]);
            }
        }
    }
}

/// Collects, for every posting matching a query hash, the pair of the
/// query's anchor time and the catalog's anchor time, grouped by candidate
/// song in order of first encounter.
pub fn gather_matches(catalog: &Catalog, fingerprint: &OrderedMap<u32>) -> (r: OrderedMap<
    Vec<(u32, u32)>,
>)
    requires
        catalog.wf(),
        fingerprint.wf(),
    ensures
        r.wf(),
        nested_view(r@) == gather_spec(
            nested_view(catalog.index@),
            fingerprint@,
            fingerprint@.len() as int,
        ),
        forall|i: int| 0 <= i < r@.len() ==> 1 <= (#[trigger] r@[i]).0 <= catalog.songs@.len(),
        forall|i: int| 0 <= i < r@.len() ==> (#[trigger] r@[i]).1@.len() >= 1,
{
    let ghost iv = nested_view(catalog.index@);
    let hashes: Vec<u32> = keys_of(fingerprint);
    proof {
        assert(forall|a: int, b: int|
            0 <= a < b < hashes@.len() ==> hashes@[a] != hashes@[b]) by {
            assert forall|a: int, b: int| 0 <= a < b < hashes@.len() implies hashes@[a]
                != hashes@[b] by {
                assert(hashes@[a] == fingerprint@[a].0 && hashes@[b] == fingerprint@[b].0);
            }
        }
    }
    let matched: OrderedMap<Vec<KeyAudioPoint>> = catalog.get_key_audio_points(&hashes);
    proof {
        lemma_lookup_unique(iv, hashes@, hashes@.len() as int);
        lemma_nested_view_keys(matched@, 0);
    }
    let mut out: OrderedMap<Vec<(u32, u32)>> = OrderedMap::new();
    let n: usize = matched.len();
    let mut e: usize = 0;
    while e < n
        invariant
            catalog.wf(),
            fingerprint.wf(),
            iv == nested_view(catalog.index@),
            matched.wf(),
            n == matched@.len(),
            n == fingerprint@.len(),
            hashes@.len() == n as int,
            forall|q: int| 0 <= q < n as int ==> hashes@[q] == (#[trigger] fingerprint@[q]).0,
            forall|q: int|
                0 <= q < n as int ==> (#[trigger] nested_view(matched@)[q]).1 == postings_at(
                    iv,
                    hashes@[q],
                ),
            forall|i: int, j: int|
                0 <= i < matched@.len() && 0 <= j < matched@[i].1@.len() ==> {
                    let p = #[trigger] matched@[i].1@[j];
                    1 <= p.song_id <= catalog.songs@.len() && p.anchor_time_ms >= 0
                },
            e <= n,
            out.wf(),
            nested_view(out@) == gather_spec(iv, fingerprint@, e as int),
            forall|i: int| 0 <= i < out@.len() ==> 1 <= (#[trigger] out@[i]).0
                <= catalog.songs@.len(),
            forall|i: int| 0 <= i < out@.len() ==> (#[trigger] out@[i]).1@.len() >= 1,
        decreases n - e,
    {
        let sample_ms: u32 = fingerprint.entries[e].1;
        let plen: usize = matched.entries[e].1.len();
        let ghost plist = postings_at(iv, fingerprint@[e as int].0);
        proof {
            assert(nested_view(matched@)[e as int].1 == matched@[e as int].1@);
            assert(matched@[e as int].1@ == plist);
        }
        let mut j: usize = 0;
        while j < plen
            invariant
                catalog.wf(),
                matched.wf(),
                e < n,
                n == matched@.len(),
                plen == matched@[e as int].1@.len(),
                matched@[e as int].1@ == plist,
                forall|i: int, q: int|
                    0 <= i < matched@.len() && 0 <= q < matched@[i].1@.len() ==> {
                        let p = #[trigger] matched@[i].1@[q];
                        1 <= p.song_id <= catalog.songs@.len() && p.anchor_time_ms >= 0
                    },
                j <= plen,
                out.wf(),
                nested_view(out@) == gather_postings(
                    gather_spec(iv, fingerprint@, e as int),
                    sample_ms,
                    plist,
                    j as int,
                ),
                forall|i: int| 0 <= i < out@.len() ==> 1 <= (#[trigger] out@[i]).0
                    <= catalog.songs@.len(),
                forall|i: int| 0 <= i < out@.len() ==> (#[trigger] out@[i]).1@.len() >= 1,
            decreases plen - j,
        {
            let p: KeyAudioPoint = matched.entries[e].1[j];
            let song: u32 = p.song_id as u32;
            let db_ms: u32 = p.anchor_time_ms as u32;
            let ghost pre = nested_view(out@);
            match out.index_of(song) {
                Some(i) => {
                    let mut pairs: Vec<(u32, u32)> = copy_vec(&out.entries[i].1);
                    pairs.push((sample_ms, db_ms));
                    proof {
                        lemma_nested_view_keys(out@, song);
                        assert(pre[i as int].1 == out@[i as int].1@);
                        lemma_nested_view_insert(out@, song, pairs);
                        assert(seq_insert(pre, song, pairs@) =~~= bucket_add(
                            pre,
                            song,
                            (sample_ms, db_ms),
                        ));
                    }
                    out.insert(song, pairs);
                },
                None => {
                    let mut pairs: Vec<(u32, u32)> = Vec::new();
                    pairs.push((sample_ms, db_ms));
                    proof {
                        lemma_nested_view_keys(out@, song);
                        lemma_nested_view_insert(out@, song, pairs);
                        assert(seq_insert(pre, song, pairs@) =~~= bucket_add(
                            pre,
                            song,
                            (sample_ms, db_ms),
                        ));
                    }
                    out.insert(song, pairs);
                },
            }
            j = j + 1;
        }
        e = e + 1;
    }
    out
}

/// The 100 ms offset bin of one pair: `(db_time - sample_time) / 100`,
/// rounded toward zero.
pub open spec fn offset_bin(sample_ms: u32, db_ms: u32) -> int {
    tdiv(db_ms - sample_ms, 100)
}

/// Whether a bin occurs in a histogram.
pub open spec fn hist_contains(h: Seq<(int, int)>, bin: int) -> bool {
    exists|i: int| 0 <= i < h.len() && (#[trigger] h[i]).0 == bin
}

/// The position of a bin in a histogram.
pub open spec fn hist_index(h: Seq<(int, int)>, bin: int) -> int {
    choose|i: int| 0 <= i < h.len() && (#[trigger] h[i]).0 == bin
}

/// Counts one hit: a bin seen before is incremented, a new bin starts at
/// zero (so a bin hit `k` times holds the count `k - 1`).
pub open spec fn hist_add(h: Seq<(int, int)>, bin: int) -> Seq<(int, int)> {
    if hist_contains(h, bin) {
        let i = hist_index(h, bin);
        h.update(i, (bin, h[i].1 + 1))
    } else {
        h.push((bin, 0))
    }
}

/// The offset histogram of the first `j` pairs of a candidate.
pub open spec fn hist_of(pairs: Seq<(u32, u32)>, j: int) -> Seq<(int, int)>
    decreases j,
{
    if j <= 0 {
        Seq::empty()
    } else {
        hist_add(hist_of(pairs, j - 1), offset_bin(pairs[j - 1].0, pairs[j - 1].1))
    }
}

/// The first histogram entry with the largest count, among the first `j`.
pub open spec fn best_entry(h: Seq<(int, int)>, j: int) -> (int, int)
    decreases j,
{
    if j <= 1 {
        h[0]
    } else {
        let b = best_entry(h, j - 1);
        if h[j - 1].1 > b.1 {
            h[j - 1]
        } else {
            b
        }
    }
}

/// The (best bin, score) of one candidate: the histogram entry with the
/// most coherent offsets.
pub open spec fn song_score(pairs: Seq<(u32, u32)>) -> (int, int) {
    let h = hist_of(pairs, pairs.len() as int);
    best_entry(h, h.len() as int)
}

/// A non-empty bucket has a non-empty histogram.
proof fn lemma_hist_len(pairs: Seq<(u32, u32)>, j: int)
    requires
        1 <= j,
    ensures
        hist_of(pairs, j).len() >= 1,
    decreases j,
{
    if j > 1 {
        lemma_hist_len(pairs, j - 1);
    }
}

/// Scores every candidate: per song, offsets are binned at 100 ms and the
/// candidate's score is the count of the fullest bin (a bin hit `k` times
/// counts `k - 1`).  The result maps each song to its best bin and score,
/// in the candidates' order.
pub fn analyze_relative_timing(matches: &OrderedMap<Vec<(u32, u32)>>) -> (scores: OrderedMap<
    (i64, u64),
>)
    requires
        matches.wf(),
        forall|i: int| 0 <= i < matches@.len() ==> (#[trigger] matches@[i]).1@.len() >= 1,
    ensures
        scores.wf(),
        scores@.len() == matches@.len(),
        forall|e: int|
            0 <= e < matches@.len() ==> {
                let sc = #[trigger] scores@[e];
                &&& sc.0 == matches@[e].0
                &&& sc.1.0 == song_score(matches@[e].1@).0
                &&& sc.1.1 == song_score(matches@[e].1@).1
            },
{
    let mut scores: OrderedMap<(i64, u64)> = OrderedMap::new();
    let n: usize = matches.len();
    let mut e: usize = 0;
    while e < n
        invariant
            matches.wf(),
            n == matches@.len(),
            forall|i: int| 0 <= i < matches@.len() ==> (#[trigger] matches@[i]).1@.len() >= 1,
            e <= n,
            scores.wf(),
            scores@.len() == e as int,
            forall|q: int|
                0 <= q < e as int ==> {
                    let sc = #[trigger] scores@[q];
                    &&& sc.0 == matches@[q].0
                    &&& sc.1.0 == song_score(matches@[q].1@).0
                    &&& sc.1.1 == song_score(matches@[q].1@).1
                },
        decreases n - e,
    {
        let song: u32 = matches.entries[e].0;
        let plen: usize = matches.entries[e].1.len();
        let ghost pairs = matches@[e as int].1@;
        // Build the offset histogram of this candidate.
        let mut hist: Vec<(i64, u64)> = Vec::new();
        let mut j: usize = 0;
        while j < plen
            invariant
                matches.wf(),
                e < n,
                n == matches@.len(),
                plen == matches@[e as int].1@.len(),
                pairs == matches@[e as int].1@,
                j <= plen,
                hist@.len() == hist_of(pairs, j as int).len(),
                forall|q: int|
                    0 <= q < hist@.len() ==> (#[trigger] hist@[q]).0 == hist_of(
                        pairs,
                        j as int,
                    )[q].0 && hist@[q].1 == hist_of(pairs, j as int)[q].1,
                forall|a: int, b: int|
                    0 <= a < b < hist@.len() ==> (#[trigger] hist@[a]).0 != (
                    #[trigger] hist@[b]).0,
                forall|q: int| 0 <= q < hist@.len() ==> (#[trigger] hist@[q]).1 <= j as int,
            decreases plen - j,
        {
            let pr: (u32, u32) = matches.entries[e].1[j];
            let off: i64 = (pr.1 as i64) - (pr.0 as i64);
            let bin: i64 = crate::math::div_trunc(off, 100);
            let ghost hprev = hist_of(pairs, j as int);
            // Find the bin, if it is already there.
            let mut found: Option<usize> = None;
            let mut q: usize = 0;
            while q < hist.len()
                invariant
                    q <= hist@.len(),
                    forall|a: int, b: int|
                        0 <= a < b < hist@.len() ==> (#[trigger] hist@[a]).0 != (
                        #[trigger] hist@[b]).0,
                    found is None ==> forall|t: int|
                        0 <= t < q as int ==> (#[trigger] hist@[t]).0 != bin,
                    found matches Some(i) ==> i < hist@.len() && hist@[i as int].0 == bin,
                decreases hist@.len() - q,
            {
                if found.is_none() && hist[q].0 == bin {
                    found = Some(q);
                }
                q = q + 1;
            }
            match found {
                Some(i) => {
                    proof {
                        assert(hist_contains(hprev, bin as int)) by {
                            assert(hprev[i as int].0 == bin);
                        }
                        let ci = hist_index(hprev, bin as int);
                        assert(0 <= ci < hprev.len() && hprev[ci].0 == bin);
                        assert(hist@[ci].0 == bin);
                        assert(ci == i as int);
                    }
                    let c: u64 = hist[i].1;
                    hist.set(i, (bin, c + 1));
                },
                None => {
                    proof {
                        assert(!hist_contains(hprev, bin as int)) by {
                            if hist_contains(hprev, bin as int) {
                                let w = hist_index(hprev, bin as int);
                                assert(0 <= w < hprev.len() && hprev[w].0 == bin);
                                assert(hist@[w].0 == bin);
                            }
                        }
                    }
                    hist.push((bin, 0));
                },
            }
            j = j + 1;
        }
        // Take the fullest bin; the first one wins ties.
        proof {
            lemma_hist_len(pairs, plen as int);
        }
        let ghost hfin = hist_of(pairs, plen as int);
        let mut best_bin: i64 = hist[0].0;
        let mut best_count: u64 = hist[0].1;
        let hlen: usize = hist.len();
        let mut k: usize = 1;
        while k < hlen
            invariant
                1 <= k <= hlen,
                hlen == hist@.len(),
                hist@.len() == hfin.len(),
                forall|q: int|
                    0 <= q < hist@.len() ==> (#[trigger] hist@[q]).0 == hfin[q].0 && hist@[q].1
                        == hfin[q].1,
                best_bin == best_entry(hfin, k as int).0,
                best_count == best_entry(hfin, k as int).1,
            decreases hlen - k,
        {
            if hist[k].1 > best_count {
                best_bin = hist[k].0;
                best_count = hist[k].1;
            }
            k = k + 1;
        }
        proof {
            assert(!seq_contains_key(scores@, song)) by {
                if seq_contains_key(scores@, song) {
                    let w = seq_index_of_key(scores@, song);
                    assert(0 <= w < scores@.len() && scores@[w].0 == song);
                    assert(matches@[w].0 == song == matches@[e as int].0);
                }
            }
        }
        scores.insert(song, (best_bin, best_count));
        e = e + 1;
    }
    scores
}

/// A ranked recognition candidate.
#[derive(Debug)]
pub struct Match {
    pub song_id: u32,
    pub song_title: String,
    pub song_artist: String,
    pub spotify_uri: Option<String>,
    pub score: u64,
}

/// The match record of a scored candidate, resolved against the song table.
pub open spec fn mk_match(songs: Seq<crate::catalog::Song>, song: u32, score: int) -> Match {
    let s = songs[song - 1];
    Match {
        song_id: song,
        song_title: s.title,
        song_artist: s.artist,
        spotify_uri: s.spotify_uri,
        score: score as u64,
    }
}

/// Places a match after every match with an equal or higher score.
pub open spec fn insert_desc(s: Seq<Match>, m: Match) -> Seq<Match>
    decreases s.len(),
{
    if s.len() == 0 {
        seq![m]
    } else if m.score > s[0].score {
        seq![m] + s
    } else {
        seq![s[0]] + insert_desc(s.drop_first(), m)
    }
}

/// Stable sort by score, descending: matches with equal scores keep their
/// relative order.
pub open spec fn sort_desc(s: Seq<Match>, j: int) -> Seq<Match>
    decreases j,
{
    if j <= 0 {
        Seq::empty()
    } else {
        insert_desc(sort_desc(s, j - 1), s[j - 1])
    }
}

/// Where the scan of a sorted prefix stops is where `insert_desc` puts the
/// new match.
proof fn lemma_insert_desc_at(s: Seq<Match>, m: Match, pos: int)
    requires
        0 <= pos <= s.len(),
        forall|q: int| 0 <= q < pos ==> (#[trigger] s[q]).score >= m.score,
        pos < s.len() ==> s[pos].score < m.score,
    ensures
        insert_desc(s, m) == s.subrange(0, pos) + seq![m] + s.subrange(pos, s.len() as int),
    decreases s.len(),
{
    if s.len() == 0 {
        assert(insert_desc(s, m) =~= s.subrange(0, pos) + seq![m] + s.subrange(
            pos,
            s.len() as int,
        ));
    } else if pos == 0 {
        assert(m.score > s[0].score);
        assert(insert_desc(s, m) =~= s.subrange(0, pos) + seq![m] + s.subrange(
            pos,
            s.len() as int,
        ));
    } else {
        assert(s[0].score >= m.score);
        lemma_insert_desc_at(s.drop_first(), m, pos - 1);
        assert(insert_desc(s, m) =~= s.subrange(0, pos) + seq![m] + s.subrange(
            pos,
            s.len() as int,
        ));
    }
}

/// Sorts matches by score, descending and stable.
fn sort_matches(v: Vec<Match>) -> (r: Vec<Match>)
    ensures
        r@ == sort_desc(v@, v@.len() as int),
{
    let ghost orig = v@;
    let mut rest: Vec<Match> = v;
    let mut out: Vec<Match> = Vec::new();
    let ghost total = orig.len() as int;
    // Reading the length pins the list's size into the usize range.
    let _len: usize = rest.len();
    proof {
        assert(orig.len() <= usize::MAX);
    }
    let mut k: usize = 0;
    while rest.len() > 0
        invariant
            k as int + rest@.len() == orig.len(),
            orig.len() <= usize::MAX,
            rest@ == orig.subrange(k as int, orig.len() as int),
            out@ == sort_desc(orig, k as int),
        decreases rest@.len(),
    {
        let m: Match = rest.remove(0);
        proof {
            assert(m == orig[k as int]);
            assert(rest@ =~= orig.subrange(k as int + 1, orig.len() as int));
        }
        let mut pos: usize = 0;
        while pos < out.len() && out[pos].score >= m.score
            invariant
                pos <= out@.len(),
                forall|q: int| 0 <= q < pos as int ==> (#[trigger] out@[q]).score >= m.score,
            decreases out@.len() - pos,
        {
            pos = pos + 1;
        }
        proof {
            lemma_insert_desc_at(out@, m, pos as int);
        }
        out.insert(pos, m);
        proof {
            assert(out@ =~= sort_desc(orig, k as int + 1));
        }
        k = k + 1;
    }
    proof {
        assert(out@ == sort_desc(orig, total));
    }
    out
}

/// The ranked matches of a query against a catalog: candidates gathered
/// from the index, scored by coherent offsets, resolved to songs, and sorted
/// by score with ties in order of first encounter.
pub open spec fn matches_spec(
    songs: Seq<crate::catalog::Song>,
    iv: Seq<(u32, Seq<KeyAudioPoint>)>,
    query: Seq<(u32, u32)>,
) -> Seq<Match> {
    let g = gather_spec(iv, query, query.len() as int);
    let unsorted = Seq::new(g.len(), |e: int| mk_match(songs, g[e].0, song_score(g[e].1).1));
    sort_desc(unsorted, unsorted.len() as int)
}

/// Matches a query fingerprint against the catalog.  Every candidate song
/// that shares at least one hash with the query is returned, ranked by
/// score, best first; an empty result means no hash overlap at all.
pub fn find_matches_from_fingerprint(catalog: &Catalog, fingerprint: &OrderedMap<u32>) -> (r:
    Result<Vec<Match>, u8>)
    requires
        catalog.wf(),
        fingerprint.wf(),
    ensures
        r is Ok,
        r->Ok_0@ == matches_spec(catalog.songs@, nested_view(catalog.index@), fingerprint@),
{
    let ghost iv = nested_view(catalog.index@);
    let ghost g = gather_spec(iv, fingerprint@, fingerprint@.len() as int);
    let buckets: OrderedMap<Vec<(u32, u32)>> = gather_matches(catalog, fingerprint);
    let scores: OrderedMap<(i64, u64)> = analyze_relative_timing(&buckets);
    proof {
        lemma_nested_view_keys(buckets@, 0);
        assert(nested_view(buckets@).len() == buckets@.len());
    }
    let mut unsorted: Vec<Match> = Vec::new();
    let n: usize = scores.len();
    let mut e: usize = 0;
    while e < n
        invariant
            catalog.wf(),
            iv == nested_view(catalog.index@),
            g == gather_spec(iv, fingerprint@, fingerprint@.len() as int),
            n == scores@.len(),
            scores@.len() == buckets@.len(),
            g.len() == buckets@.len(),
            forall|q: int| 0 <= q < buckets@.len() ==> (#[trigger] g[q]).0 == buckets@[q].0
                && g[q].1 == buckets@[q].1@,
            forall|q: int|
                0 <= q < buckets@.len() ==> 1 <= (#[trigger] buckets@[q]).0
                    <= catalog.songs@.len(),
            forall|q: int|
                0 <= q < scores@.len() ==> {
                    let sc = #[trigger] scores@[q];
                    &&& sc.0 == buckets@[q].0
                    &&& sc.1.1 == song_score(buckets@[q].1@).1
                },
            e <= n,
            unsorted@.len() == e as int,
            forall|q: int|
                0 <= q < e as int ==> #[trigger] unsorted@[q] == mk_match(
                    catalog.songs@,
                    g[q].0,
                    song_score(g[q].1).1,
                ),
        decreases n - e,
    {
        let song: u32 = scores.entries[e].0;
        let count: u64 = scores.entries[e].1.1;
        let s: crate::catalog::Song = match catalog.get_song_by_id(song) {
            Ok(s) => s,
            Err(code) => {
                proof {
                    assert(1 <= song <= catalog.songs@.len());
                    assert(false);
                }
                return Err(code);
            },
        };
        unsorted.push(
            Match {
                song_id: song,
                song_title: s.title,
                song_artist: s.artist,
                spotify_uri: s.spotify_uri,
                score: count,
            },
        );
        e = e + 1;
    }
    proof {
        let spec_unsorted = Seq::new(
            g.len(),
            |q: int| mk_match(catalog.songs@, g[q].0, song_score(g[q].1).1),
        );
        assert(unsorted@ =~= spec_unsorted);
    }
    Ok(sort_matches(unsorted))
}

/// The pair bucket of candidate `s`, empty if `s` was never seen.
pub open spec fn bucket_pairs(acc: Seq<(u32, Seq<(u32, u32)>)>, s: u32) -> Seq<(u32, u32)> {
    if seq_contains_key(acc, s) {
        seq_value_of(acc, s)
    } else {
        Seq::empty()
    }
}

/// How many of the first `j` pairs have equal query and catalog times.
pub open spec fn zero_pairs(pairs: Seq<(u32, u32)>, j: int) -> int
    decreases j,
{
    if j <= 0 {
        0
    } else {
        zero_pairs(pairs, j - 1) + if pairs[j - 1].0 == pairs[j - 1].1 {
            1int
        } else {
            0int
        }
    }
}

/// The zero-pair count reads only the first `j` pairs.
proof fn lemma_zero_pairs_prefix(a: Seq<(u32, u32)>, b: Seq<(u32, u32)>, j: int)
    requires
        forall|i: int| 0 <= i < j ==> a[i] == b[i],
    ensures
        zero_pairs(a, j) == zero_pairs(b, j),
    decreases j,
{
    if j > 0 {
        lemma_zero_pairs_prefix(a, b, j - 1);
    }
}

/// Appending a pair raises the zero-pair count by one exactly when the
/// pair's two times agree.
proof fn lemma_zero_pairs_push(pairs: Seq<(u32, u32)>, p: (u32, u32))
    ensures
        zero_pairs(pairs.push(p), pairs.len() as int + 1) == zero_pairs(pairs, pairs.len() as int)
            + if p.0 == p.1 {
            1int
        } else {
            0int
        },
{
    lemma_zero_pairs_prefix(pairs.push(p), pairs, pairs.len() as int);
}

/// What one bucket addition does: the target bucket grows by the pair, and
/// every other bucket is untouched.
#[verifier::spinoff_prover]
proof fn lemma_bucket_add_pairs(
    acc: Seq<(u32, Seq<(u32, u32)>)>,
    song: u32,
    pair: (u32, u32),
    s: u32,
)
    requires
        keys_unique(acc),
    ensures
        keys_unique(bucket_add(acc, song, pair)),
        s == song ==> bucket_pairs(bucket_add(acc, song, pair), s) == bucket_pairs(acc, s).push(
            pair,
        ),
        s != song ==> bucket_pairs(bucket_add(acc, song, pair), s) == bucket_pairs(acc, s),
{
    let acc2 = bucket_add(acc, song, pair);
    if seq_contains_key(acc, song) {
        let i = seq_index_of_key(acc, song);
        assert(0 <= i < acc.len() && acc[i].0 == song);
        assert forall|a: int, b: int| 0 <= a < b < acc2.len() implies (#[trigger] acc2[a]).0 != (
        #[trigger] acc2[b]).0 by {
            assert(acc2[a].0 == acc[a].0 && acc2[b].0 == acc[b].0);
        }
        if seq_contains_key(acc2, s) {
            let i2 = seq_index_of_key(acc2, s);
            assert(0 <= i2 < acc2.len() && acc2[i2].0 == s);
            assert(acc[i2].0 == s);
            assert(seq_contains_key(acc, s));
        }
        if seq_contains_key(acc, s) {
            let i1 = seq_index_of_key(acc, s);
            assert(0 <= i1 < acc.len() && acc[i1].0 == s);
            assert(acc2[i1].0 == s);
            assert(seq_contains_key(acc2, s));
            let i2 = seq_index_of_key(acc2, s);
            assert(acc2[i2].0 == s && acc[i2].0 == s);
            if i1 != i2 {
                assert(false);
            }
            if s == song {
                if i1 != i {
                    assert(acc[i1].0 == acc[i].0);
                    assert(false);
                }
            } else {
                assert(i1 != i);
            }
        }
        if s == song {
            assert(seq_contains_key(acc, s)) by {
                assert(acc[i].0 == s);
            }
        }
    } else {
        assert forall|a: int, b: int| 0 <= a < b < acc2.len() implies (#[trigger] acc2[a]).0 != (
        #[trigger] acc2[b]).0 by {
            if b < acc2.len() - 1 {
                assert(acc2[a] == acc[a] && acc2[b] == acc[b]);
            } else {
                assert(acc2[a] == acc[a]);
                if acc[a].0 == song {
                    assert(seq_contains_key(acc, song));
                }
            }
        }
        if s == song {
            assert(acc2[acc.len() as int].0 == s);
            assert(seq_contains_key(acc2, s));
            let i2 = seq_index_of_key(acc2, s);
            assert(acc2[i2].0 == s);
            if i2 != acc.len() {
                assert(acc[i2].0 == s);
                assert(seq_contains_key(acc, s));
            }
            assert(bucket_pairs(acc2, s) =~= bucket_pairs(acc, s).push(pair));
        } else {
            if seq_contains_key(acc2, s) {
                let i2 = seq_index_of_key(acc2, s);
                assert(acc2[i2].0 == s);
                assert(i2 < acc.len());
                assert(seq_contains_key(acc, s));
            }
            if seq_contains_key(acc, s) {
                let i1 = seq_index_of_key(acc, s);
                assert(acc2[i1].0 == s);
                assert(seq_contains_key(acc2, s));
                let i2 = seq_index_of_key(acc2, s);
                assert(acc2[i2].0 == s);
                if i2 == acc.len() {
                    assert(false);
                }
                assert(acc[i2].0 == s);
                if i1 != i2 {
                    assert(false);
                }
            }
        }
    }
}

/// Folding one hash's postings: the bucket of `s` only grows, and it gains
/// an aligned pair whenever one of the postings is `s`'s own anchor.
#[verifier::spinoff_prover]
proof fn lemma_gather_postings_self(
    acc: Seq<(u32, Seq<(u32, u32)>)>,
    sample_ms: u32,
    plist: Seq<KeyAudioPoint>,
    j: int,
    s: u32,
)
    requires
        keys_unique(acc),
    ensures
        keys_unique(gather_postings(acc, sample_ms, plist, j)),
        ({
            let before = bucket_pairs(acc, s);
            let after = bucket_pairs(gather_postings(acc, sample_ms, plist, j), s);
            &&& zero_pairs(after, after.len() as int) >= zero_pairs(before, before.len() as int)
            &&& (exists|j0: int|
                0 <= j0 < j && (#[trigger] plist[j0]).song_id as u32 == s
                    && plist[j0].anchor_time_ms as u32 == sample_ms) ==> zero_pairs(
                after,
                after.len() as int,
            ) >= zero_pairs(before, before.len() as int) + 1
        }),
    decreases j,
{
    if j > 0 {
        lemma_gather_postings_self(acc, sample_ms, plist, j - 1, s);
        let mid = gather_postings(acc, sample_ms, plist, j - 1);
        let song = plist[j - 1].song_id as u32;
        let pair = (sample_ms, plist[j - 1].anchor_time_ms as u32);
        lemma_bucket_add_pairs(mid, song, pair, s);
        if s == song {
            lemma_zero_pairs_push(bucket_pairs(mid, s), pair);
        }
        if exists|j0: int|
            0 <= j0 < j && (#[trigger] plist[j0]).song_id as u32 == s
                && plist[j0].anchor_time_ms as u32 == sample_ms {
            let j0 = choose|j0: int|
                0 <= j0 < j && (#[trigger] plist[j0]).song_id as u32 == s
                    && plist[j0].anchor_time_ms as u32 == sample_ms;
            if j0 < j - 1 {
                assert(exists|j1: int|
                    0 <= j1 < j - 1 && (#[trigger] plist[j1]).song_id as u32 == s
                        && plist[j1].anchor_time_ms as u32 == sample_ms);
            } else {
                assert(s == song && pair.0 == pair.1);
            }
        }
    }
}

/// The list holds a posting of song `s` anchored at time `t`.
pub open spec fn has_own_posting(plist: Seq<KeyAudioPoint>, s: u32, t: u32) -> bool {
    exists|j0: int|
        0 <= j0 < plist.len() && (#[trigger] plist[j0]).song_id as u32 == s
            && plist[j0].anchor_time_ms as u32 == t
}

/// Every query hash's posting list carries song `s`'s own posting: a
/// posting whose anchor time is the query's anchor time for that hash.
/// This is how the index looks at the hashes of a recording enrolled as
/// `s` when that same recording is fingerprinted again as the query.
pub open spec fn self_postings(
    iv: Seq<(u32, Seq<KeyAudioPoint>)>,
    query: Seq<(u32, u32)>,
    s: u32,
) -> bool {
    forall|q: int|
        0 <= q < query.len() ==> has_own_posting(
            postings_at(iv, (#[trigger] query[q]).0),
            s,
            query[q].1,
        )
}

/// Gathering the whole query: every query entry whose hash carries `s`'s
/// own posting contributes one aligned pair to `s`'s bucket.
proof fn lemma_gather_self(iv: Seq<(u32, Seq<KeyAudioPoint>)>, query: Seq<(u32, u32)>, e: int, s: u32)
    requires
        0 <= e <= query.len(),
        self_postings(iv, query, s),
    ensures
        keys_unique(gather_spec(iv, query, e)),
        ({
            let pairs = bucket_pairs(gather_spec(iv, query, e), s);
            zero_pairs(pairs, pairs.len() as int) >= e
        }),
    decreases e,
{
    if e > 0 {
        lemma_gather_self(iv, query, e - 1, s);
        let acc = gather_spec(iv, query, e - 1);
        let plist = postings_at(iv, query[e - 1].0);
        lemma_gather_postings_self(acc, query[e - 1].1, plist, plist.len() as int, s);
        assert(has_own_posting(plist, s, query[e - 1].1));
        let j0 = choose|j0: int|
            0 <= j0 < plist.len() && (#[trigger] plist[j0]).song_id as u32 == s
                && plist[j0].anchor_time_ms as u32 == query[e - 1].1;
        assert(exists|j1: int|
            0 <= j1 < plist.len() && (#[trigger] plist[j1]).song_id as u32 == s
                && plist[j1].anchor_time_ms as u32 == query[e - 1].1);
    }
}

/// Histogram facts along one bucket: bins stay pairwise distinct, counts
/// stay between zero and the number of pairs seen, and the zero-offset bin
/// holds at least one less than the number of aligned pairs.
#[verifier::spinoff_prover]
proof fn lemma_hist_bin0(pairs: Seq<(u32, u32)>, j: int)
    requires
        0 <= j,
    ensures
        ({
            let h = hist_of(pairs, j);
            &&& forall|a: int, b: int|
                0 <= a < b < h.len() ==> (#[trigger] h[a]).0 != (#[trigger] h[b]).0
            &&& forall|a: int| 0 <= a < h.len() ==> 0 <= (#[trigger] h[a]).1 <= j
            &&& zero_pairs(pairs, j) >= 1 ==> hist_contains(h, 0) && h[hist_index(h, 0)].1
                >= zero_pairs(pairs, j) - 1
        }),
    decreases j,
{
    if j > 0 {
        lemma_hist_bin0(pairs, j - 1);
        let h = hist_of(pairs, j - 1);
        let bin = offset_bin(pairs[j - 1].0, pairs[j - 1].1);
        let h2 = hist_add(h, bin);
        if pairs[j - 1].0 == pairs[j - 1].1 {
            assert(bin == 0) by {
                assert(pairs[j - 1].1 - pairs[j - 1].0 == 0);
                vstd::arithmetic::div_mod::lemma_basic_div(0, 100);
            }
        }
        if hist_contains(h, bin) {
            let i = hist_index(h, bin);
            assert(0 <= i < h.len() && h[i].0 == bin);
            assert forall|a: int, b: int| 0 <= a < b < h2.len() implies (#[trigger] h2[a]).0 != (
            #[trigger] h2[b]).0 by {
                assert(h2[a].0 == h[a].0 && h2[b].0 == h[b].0);
            }
            if zero_pairs(pairs, j) >= 1 && (zero_pairs(pairs, j - 1) >= 1 || bin == 0) {
                if zero_pairs(pairs, j - 1) >= 1 {
                    let i0 = hist_index(h, 0);
                    assert(0 <= i0 < h.len() && h[i0].0 == 0);
                    assert(h2[i0].0 == 0);
                    assert(hist_contains(h2, 0));
                    let i02 = hist_index(h2, 0);
                    assert(h2[i02].0 == 0);
                    if i02 != i0 {
                        assert(h[i02].0 == 0);
                        assert(false);
                    }
                    if bin == 0 {
                        if i != i0 {
                            assert(false);
                        }
                    }
                } else {
                    // The new pair is aligned and bin 0 was already present
                    // with some count; it only grows.
                    assert(bin == 0);
                    assert(zero_pairs(pairs, j - 1) == 0);
                    assert(h2[i].0 == 0);
                    assert(hist_contains(h2, 0));
                    let i02 = hist_index(h2, 0);
                    if i02 != i {
                        assert(h[i02].0 == 0);
                        let ii = hist_index(h, 0);
                        assert(false) by {
                            assert(h[i02].0 == 0);
                            assert(h2[i02] == h[i02]);
                            assert(i02 != i ==> h2[i02].1 == h[i02].1);
                            assert(h[i02].0 == h[i].0);
                        }
                    }
                    assert(h2[i02].1 >= 0);
                }
            }
        } else {
            assert forall|a: int, b: int| 0 <= a < b < h2.len() implies (#[trigger] h2[a]).0 != (
            #[trigger] h2[b]).0 by {
                if b < h2.len() - 1 {
                    assert(h2[a] == h[a] && h2[b] == h[b]);
                } else {
                    assert(h2[a] == h[a]);
                    if h[a].0 == bin {
                        assert(hist_contains(h, bin));
                    }
                }
            }
            if zero_pairs(pairs, j) >= 1 {
                if zero_pairs(pairs, j - 1) >= 1 {
                    assert(bin != 0) by {
                        if bin == 0 {
                            assert(hist_contains(h, 0));
                        }
                    }
                    let i0 = hist_index(h, 0);
                    assert(h2[i0].0 == 0);
                    assert(hist_contains(h2, 0));
                    let i02 = hist_index(h2, 0);
                    assert(h2[i02].0 == 0);
                    if i02 == h.len() {
                        assert(h2[i02].0 == bin);
                        assert(false);
                    }
                    assert(h[i02].0 == 0);
                    if i02 != i0 {
                        assert(false);
                    }
                } else {
                    assert(pairs[j - 1].0 == pairs[j - 1].1);
                    assert(bin == 0);
                    assert(h2[h.len() as int] == (0int, 0int));
                    assert(hist_contains(h2, 0));
                    let i02 = hist_index(h2, 0);
                    assert(h2[i02].0 == 0);
                    if i02 != h.len() {
                        assert(h[i02].0 == 0);
                        assert(hist_contains(h, 0));
                        assert(false);
                    }
                    assert(h2[i02].1 == 0 >= zero_pairs(pairs, j) - 1);
                }
            }
        }
    }
}

/// The best histogram entry beats every entry before position `j`.
proof fn lemma_best_entry_ge(h: Seq<(int, int)>, j: int, e: int)
    requires
        0 <= e < j <= h.len(),
    ensures
        best_entry(h, j).1 >= h[e].1,
    decreases j,
{
    if j > 1 && e < j - 1 {
        lemma_best_entry_ge(h, j - 1, e);
    }
}

/// Self-recognition at the candidate level: when every query hash carries
/// the posting of song `s` at the query's own anchor time — as it does
/// after enrolling the very recording the query was fingerprinted from —
/// the gathered candidates contain `s` with a score of at least one less
/// than the number of query hashes.
#[verifier::spinoff_prover]
pub proof fn lemma_self_recognition(
    iv: Seq<(u32, Seq<KeyAudioPoint>)>,
    query: Seq<(u32, u32)>,
    s: u32,
)
    requires
        query.len() >= 1,
        self_postings(iv, query, s),
    ensures
        seq_contains_key(gather_spec(iv, query, query.len() as int), s),
        song_score(bucket_pairs(gather_spec(iv, query, query.len() as int), s)).1 >= query.len()
            - 1,
{
    let n = query.len() as int;
    lemma_gather_self(iv, query, n, s);
    let g = gather_spec(iv, query, n);
    let pairs = bucket_pairs(g, s);
    assert(zero_pairs(pairs, pairs.len() as int) >= n);
    assert(seq_contains_key(g, s)) by {
        if !seq_contains_key(g, s) {
            assert(pairs =~= Seq::<(u32, u32)>::empty());
            assert(zero_pairs(pairs, 0) == 0);
        }
    }
    lemma_hist_bin0(pairs, pairs.len() as int);
    let h = hist_of(pairs, pairs.len() as int);
    let i0 = hist_index(h, 0);
    lemma_best_entry_ge(h, h.len() as int, i0);
}

/// Scores never decrease from one rank to the next.
pub open spec fn sorted_by_score_desc(s: Seq<Match>) -> bool {
    forall|i: int, j: int|
        0 <= i <= j < s.len() ==> (#[trigger] s[i]).score >= (#[trigger] s[j]).score
}

/// The scan position of a match: how many leading matches score at least
/// as high.
spec fn insert_pos(s: Seq<Match>, m: Match) -> int
    decreases s.len(),
{
    if s.len() == 0 {
        0
    } else if m.score > s[0].score {
        0
    } else {
        1 + insert_pos(s.drop_first(), m)
    }
}

/// The scan position splits the list into a prefix scoring at least the
/// match and a remainder starting below it.
proof fn lemma_insert_pos(s: Seq<Match>, m: Match)
    ensures
        0 <= insert_pos(s, m) <= s.len(),
        forall|q: int| 0 <= q < insert_pos(s, m) ==> (#[trigger] s[q]).score >= m.score,
        insert_pos(s, m) < s.len() ==> s[insert_pos(s, m)].score < m.score,
    decreases s.len(),
{
    if s.len() > 0 && !(m.score > s[0].score) {
        lemma_insert_pos(s.drop_first(), m);
        let p = insert_pos(s, m);
        assert forall|q: int| 0 <= q < p implies (#[trigger] s[q]).score >= m.score by {
            if q > 0 {
                assert(s.drop_first()[q - 1] == s[q]);
            }
        }
        if p < s.len() {
            assert(s.drop_first()[p - 1] == s[p]);
        }
    }
}

/// Placing one match keeps the list sorted and loses nothing: the result
/// holds the new match and every old one, and nothing else.
#[verifier::spinoff_prover]
proof fn lemma_insert_desc_props(s: Seq<Match>, m: Match)
    ensures
        insert_desc(s, m).len() == s.len() + 1,
        sorted_by_score_desc(s) ==> sorted_by_score_desc(insert_desc(s, m)),
        exists|k: int| 0 <= k < insert_desc(s, m).len() && #[trigger] insert_desc(s, m)[k] == m,
        forall|e: int|
            0 <= e < s.len() ==> exists|k: int|
                0 <= k < insert_desc(s, m).len() && insert_desc(s, m)[k] == #[trigger] s[e],
        forall|k: int|
            0 <= k < insert_desc(s, m).len() ==> #[trigger] insert_desc(s, m)[k] == m || exists|
                e: int,
            | 0 <= e < s.len() && s[e] == insert_desc(s, m)[k],
{
    let r = insert_desc(s, m);
    let p = insert_pos(s, m);
    let n = s.len() as int;
    lemma_insert_pos(s, m);
    lemma_insert_desc_at(s, m, p);
    // The result is s with m spliced in at the scan position.
    assert(r.len() == n + 1);
    assert(r[p] == m);
    assert(forall|k: int| 0 <= k < p ==> #[trigger] r[k] == s[k]);
    assert(forall|k: int| p < k < n + 1 ==> #[trigger] r[k] == s[k - 1]);
    assert forall|e: int| 0 <= e < n implies exists|k: int|
        0 <= k < r.len() && r[k] == #[trigger] s[e] by {
        if e < p {
            assert(r[e] == s[e]);
        } else {
            assert(r[e + 1] == s[e]);
        }
    }
    assert forall|k: int| 0 <= k < r.len() implies #[trigger] r[k] == m || exists|e: int|
        0 <= e < n && s[e] == r[k] by {
        if k < p {
            assert(s[k] == r[k]);
        } else if k > p {
            assert(s[k - 1] == r[k]);
        }
    }
    if sorted_by_score_desc(s) {
        assert forall|i: int, j: int| 0 <= i <= j < r.len() implies (#[trigger] r[i]).score >= (
        #[trigger] r[j]).score by {
            if j < p {
                assert(r[i] == s[i] && r[j] == s[j]);
            } else if j == p {
                if i < p {
                    assert(r[i] == s[i]);
                    assert(s[i].score >= m.score);
                }
            } else {
                assert(r[j] == s[j - 1]);
                if i < p {
                    assert(r[i] == s[i]);
                    assert(s[i].score >= s[j - 1].score);
                } else if i == p {
                    assert(s[p].score < m.score);
                    assert(s[p].score >= s[j - 1].score);
                } else {
                    assert(r[i] == s[i - 1]);
                }
            }
        }
    }
}

/// The ranking law: sorting ranks matches by score, best first and stable,
/// and neither invents nor drops a candidate — the result is a
/// rearrangement of the scored matches.
#[verifier::rlimit(100)]
#[verifier::spinoff_prover]
pub proof fn lemma_ranking_laws(s: Seq<Match>, j: int)
    requires
        0 <= j <= s.len(),
    ensures
        sort_desc(s, j).len() == j,
        sorted_by_score_desc(sort_desc(s, j)),
        forall|e: int|
            0 <= e < j ==> exists|k: int| 0 <= k < j && sort_desc(s, j)[k] == #[trigger] s[e],
        forall|k: int|
            0 <= k < j ==> exists|e: int| 0 <= e < j && s[e] == #[trigger] sort_desc(s, j)[k],
    decreases j,
{
    if j > 0 {
        lemma_ranking_laws(s, j - 1);
        let prev = sort_desc(s, j - 1);
        let cur = sort_desc(s, j);
        lemma_insert_desc_props(prev, s[j - 1]);
        assert forall|e: int| 0 <= e < j implies exists|k: int|
            0 <= k < j && cur[k] == #[trigger] s[e] by {
            if e == j - 1 {
                let k = choose|k: int| 0 <= k < cur.len() && #[trigger] cur[k] == s[j - 1];
                assert(cur[k] == s[e]);
            } else {
                let k0 = choose|k: int| 0 <= k < j - 1 && #[trigger] prev[k] == s[e];
                let k = choose|k: int| 0 <= k < cur.len() && #[trigger] cur[k] == prev[k0];
                assert(cur[k] == s[e]);
            }
        }
        assert forall|k: int| 0 <= k < j implies exists|e: int|
            0 <= e < j && s[e] == #[trigger] cur[k] by {
            if cur[k] == s[j - 1] {
                assert(s[j - 1] == cur[k]);
            } else {
                assert(cur[k] == s[j - 1] || exists|e0: int|
                    0 <= e0 < prev.len() && prev[e0] == cur[k]);
                let e0 = choose|e0: int| 0 <= e0 < prev.len() && prev[e0] == cur[k];
                let e = choose|e: int| 0 <= e < j - 1 && s[e] == #[trigger] prev[e0];
                assert(s[e] == cur[k]);
            }
        }
    }
}

/// Sum of the posting-list lengths of the first `e` query hashes.
pub open spec fn total_postings(iv: Seq<(u32, Seq<KeyAudioPoint>)>, query: Seq<(u32, u32)>, e: int) -> int
    decreases e,
{
    if e <= 0 {
        0
    } else {
        total_postings(iv, query, e - 1) + postings_at(iv, query[e - 1].0).len()
    }
}

/// A bucket gains at most one pair per posting.
proof fn lemma_gather_postings_len(
    acc: Seq<(u32, Seq<(u32, u32)>)>,
    sample_ms: u32,
    plist: Seq<KeyAudioPoint>,
    j: int,
    s: u32,
)
    requires
        keys_unique(acc),
        0 <= j,
    ensures
        bucket_pairs(gather_postings(acc, sample_ms, plist, j), s).len() <= bucket_pairs(
            acc,
            s,
        ).len() + j,
    decreases j,
{
    if j > 0 {
        lemma_gather_postings_len(acc, sample_ms, plist, j - 1, s);
        let mid = gather_postings(acc, sample_ms, plist, j - 1);
        lemma_gather_postings_self(acc, sample_ms, plist, j - 1, s);
        lemma_bucket_add_pairs(
            mid,
            plist[j - 1].song_id as u32,
            (sample_ms, plist[j - 1].anchor_time_ms as u32),
            s,
        );
    }
}

/// No bucket holds more pairs than the index served postings.
#[verifier::spinoff_prover]
proof fn lemma_bucket_len_bound(
    iv: Seq<(u32, Seq<KeyAudioPoint>)>,
    query: Seq<(u32, u32)>,
    e: int,
    s: u32,
)
    requires
        0 <= e <= query.len(),
    ensures
        bucket_pairs(gather_spec(iv, query, e), s).len() <= total_postings(iv, query, e),
        keys_unique(gather_spec(iv, query, e)),
    decreases e,
{
    if e > 0 {
        lemma_bucket_len_bound(iv, query, e - 1, s);
        let acc = gather_spec(iv, query, e - 1);
        let plist = postings_at(iv, query[e - 1].0);
        lemma_gather_postings_len(acc, query[e - 1].1, plist, plist.len() as int, s);
        lemma_gather_postings_self(acc, query[e - 1].1, plist, plist.len() as int, s);
    }
}

/// A zero-pair count never exceeds the number of pairs counted.
proof fn lemma_zero_pairs_le(pairs: Seq<(u32, u32)>, j: int)
    requires
        0 <= j,
    ensures
        0 <= zero_pairs(pairs, j) <= j,
    decreases j,
{
    if j > 0 {
        lemma_zero_pairs_le(pairs, j - 1);
    }
}

/// The best histogram entry is one of the entries.
proof fn lemma_best_entry_in(h: Seq<(int, int)>, j: int)
    requires
        1 <= j <= h.len(),
    ensures
        exists|k: int| 0 <= k < j && best_entry(h, j) == h[k],
    decreases j,
{
    if j == 1 {
        assert(best_entry(h, j) == h[0]);
    } else {
        lemma_best_entry_in(h, j - 1);
        if h[j - 1].1 > best_entry(h, j - 1).1 {
            assert(best_entry(h, j) == h[j - 1]);
        }
    }
}

/// Self-recognition, end to end at the matcher: after enrolling the very
/// recording the query was fingerprinted from, so that every query hash
/// carries song `s`'s posting at the query's own anchor time, the ranked
/// matches contain `s` with a score of at least one less than the number
/// of query hashes.
#[verifier::spinoff_prover]
pub proof fn lemma_self_recognition_ranked(
    songs: Seq<crate::catalog::Song>,
    iv: Seq<(u32, Seq<KeyAudioPoint>)>,
    query: Seq<(u32, u32)>,
    s: u32,
)
    requires
        query.len() >= 1,
        self_postings(iv, query, s),
        total_postings(iv, query, query.len() as int) < 0x10000000000000000,
    ensures
        exists|k: int|
            0 <= k < matches_spec(songs, iv, query).len() && (#[trigger] matches_spec(
                songs,
                iv,
                query,
            )[k]).song_id == s && matches_spec(songs, iv, query)[k].score >= query.len() - 1,
{
    let n = query.len() as int;
    lemma_self_recognition(iv, query, s);
    lemma_bucket_len_bound(iv, query, n, s);
    let g = gather_spec(iv, query, n);
    let idx = seq_index_of_key(g, s);
    assert(0 <= idx < g.len() && g[idx].0 == s);
    let pairs = bucket_pairs(g, s);
    assert(pairs == g[idx].1);
    let sc = song_score(pairs).1;
    // The score is a histogram count: non-negative and at most the number
    // of pairs, which the index bounds.
    let h = hist_of(pairs, pairs.len() as int);
    lemma_hist_bin0(pairs, pairs.len() as int);
    lemma_gather_self(iv, query, n, s);
    assert(pairs.len() >= 1) by {
        lemma_zero_pairs_le(pairs, pairs.len() as int);
    }
    lemma_hist_len(pairs, pairs.len() as int);
    lemma_best_entry_in(h, h.len() as int);
    assert(0 <= sc < 0x10000000000000000) by {
        let k = choose|k: int| 0 <= k < h.len() && best_entry(h, h.len() as int) == h[k];
        assert(0 <= h[k].1 <= pairs.len());
    }
    let unsorted = Seq::new(g.len(), |e: int| mk_match(songs, g[e].0, song_score(g[e].1).1));
    assert(unsorted[idx].song_id == s);
    assert(unsorted[idx].score == sc as u64);
    assert(unsorted[idx].score >= n - 1);
    lemma_ranking_laws(unsorted, unsorted.len() as int);
    let sorted = sort_desc(unsorted, unsorted.len() as int);
    let k = choose|k: int| 0 <= k < sorted.len() && #[trigger] sorted[k] == unsorted[idx];
    assert(matches_spec(songs, iv, query) == sorted);
    assert(matches_spec(songs, iv, query)[k].song_id == s);
    assert(matches_spec(songs, iv, query)[k].score >= n - 1);
}
/// Enroll, then query the same recording: storing a fingerprint map whose
/// postings all carry song `s` leaves the index holding, for every hash of
/// the map, `s`'s posting at that hash's own anchor time — exactly the
/// premise of the self-recognition law for the query derived from the map.
/// Together with `lemma_self_recognition_ranked`, recognizing a recording
/// against a catalog it was just enrolled in ranks it with a score of at
/// least its hash count less one.
#[verifier::spinoff_prover]
pub proof fn lemma_enroll_self_postings(
    iv: Seq<(u32, Seq<KeyAudioPoint>)>,
    fps: Seq<(u32, KeyAudioPoint)>,
    s: u32,
)
    requires
        keys_unique(iv),
        forall|e: int| 0 <= e < fps.len() ==> (#[trigger] fps[e]).1.song_id as u32 == s,
    ensures
        self_postings(crate::catalog::store_fps_spec(iv, fps, fps.len() as int), query_of(fps), s),
{
    let iv2 = crate::catalog::store_fps_spec(iv, fps, fps.len() as int);
    let query = query_of(fps);
    assert forall|q: int| 0 <= q < query.len() implies has_own_posting(
        postings_at(iv2, (#[trigger] query[q]).0),
        s,
        query[q].1,
    ) by {
        crate::catalog::lemma_store_adds_posting(iv, fps, fps.len() as int, q);
        let plist = postings_at(iv2, fps[q].0);
        let j0 = choose|j0: int| 0 <= j0 < plist.len() && plist[j0] == fps[q].1;
        assert(plist[j0].song_id as u32 == s);
        assert(plist[j0].anchor_time_ms as u32 == query[q].1);
        assert(query[q].0 == fps[q].0);
    }
}

} // verus!
