//! The artwork cache: which cached image file belongs to which station, and
//! the name under which an artwork address is cached.
use sha2::{Digest, Sha256};
use std::collections::HashMap;
use std::path::PathBuf;
use vstd::prelude::*;
use vstd::string::StringSliceAdditionalSpecFns;
use crate::config::Station;
use crate::text::{hex_digit, string_of};

verus! {

broadcast use vstd::std_specs::hash::group_hash_axioms;

/// A filesystem path, carried through unread.
#[verifier::external_type_specification]
#[verifier::external_body]
pub struct ExPathBuf(PathBuf);

/// The SHA-256 digest of `data`.
pub uninterp spec fn sha256(data: Seq<u8>) -> Seq<u8>;

/// Calls `sha2::Sha256::digest`: the result is the SHA-256 digest of `data`,
/// 32 bytes long (the output size of `Sha256`).
#[verifier::external_body]
fn sha256_digest(data: &[u8]) -> (r: Vec<u8>)
    ensures
        r@ == sha256(data@),
        r@.len() == 32,
{
    Sha256::digest(data).to_vec()
}

/// Each byte as two lowercase hexadecimal digits, as `{:x}` prints a digest.
pub open spec fn hex_lower(bytes: Seq<u8>) -> Seq<char>
    decreases bytes.len(),
{
    if bytes.len() == 0 {
        Seq::empty()
    } else {
        hex_lower(bytes.drop_last()) + seq![
            hex_digit(bytes.last() / 16),
            hex_digit(bytes.last() % 16),
        ]
    }
}

proof fn lemma_hex_lower_len(bytes: Seq<u8>)
    ensures
        hex_lower(bytes).len() == 2 * bytes.len(),
    decreases bytes.len(),
{
    if bytes.len() > 0 {
        lemma_hex_lower_len(bytes.drop_last());
    }
}

/// The cache file name of an artwork address: the hex SHA-256 of its UTF-8
/// bytes, with `.png` appended.
pub open spec fn cache_file_name(url: &str) -> Seq<char> {
    hex_lower(sha256(url.spec_bytes())) + ".png"@
}

fn hex_char(n: u8) -> (c: char)
    requires
        n < 16,
    ensures
        c == hex_digit(n),
{
    if n < 10 {
        (n + 48) as char
    } else {
        (n + 87) as char
    }
}

/// The name under which the artwork at `url` is cached.
pub fn cache_filename(url: &str) -> (r: String)
    ensures
        r@ == cache_file_name(url),
        r@.len() == 68,
{
    let digest = sha256_digest(url.as_bytes());
    let mut out: Vec<char> = Vec::new();
    let mut i: usize = 0;
    while i < digest.len()
        invariant
            i <= digest@.len(),
            out@ == hex_lower(digest@.take(i as int)),
        decreases digest.len() - i,
    {
        let b = digest[i];
        out.push(hex_char(b / 16));
        out.push(hex_char(b % 16));
        proof {
            assert(digest@.take(i + 1).drop_last() =~= digest@.take(i as int));
            assert(digest@.take(i + 1).last() == b);
            assert(out@ =~= hex_lower(digest@.take(i + 1)));
        }
        i += 1;
    }
    proof {
        assert(digest@.take(digest.len() as int) =~= digest@);
        reveal_strlit(".png");
    }
    out.push('.');
    out.push('p');
    out.push('n');
    out.push('g');
    assert(out@ =~= cache_file_name(url));
    proof {
        lemma_hex_lower_len(digest@);
    }
    string_of(&out)
}

/// How long a cached artwork file stays fresh: five days, in seconds.
pub const CACHE_TTL_SECS: u64 = 432_000;

/// Whether a cached file is fresh, given the whole seconds elapsed since it
/// was written (`None` when that time cannot be told, as for a modification
/// time in the future): fresh when younger than five days. Comparing whole
/// seconds gives the same answer as comparing the exact `Duration`.
pub fn cache_is_fresh(elapsed_secs: Option<u64>) -> (r: bool)
    ensures
        r == (elapsed_secs matches Some(e) && e < CACHE_TTL_SECS),
{
    match elapsed_secs {
        Some(e) => e < CACHE_TTL_SECS,
        None => false,
    }
}

/// The cached artwork file of each station, by station position.
pub struct ArtworkCache {
    cache: HashMap<usize, PathBuf>,
}

impl View for ArtworkCache {
    type V = Map<usize, PathBuf>;

    closed spec fn view(&self) -> Map<usize, PathBuf> {
        self.cache@
    }
}

impl ArtworkCache {
    /// An empty cache.
    pub fn new() -> (r: Self)
        ensures
            r@ == Map::<usize, PathBuf>::empty(),
    {
        ArtworkCache { cache: HashMap::new() }
    }

    /// The artwork file recorded for the station at `index`.
    pub fn get(&self, index: &usize) -> (r: Option<&PathBuf>)
        ensures
            match r {
                Some(p) => self@.contains_key(*index) && *p == self@[*index],
                None => !self@.contains_key(*index),
            },
    {
        self.cache.get(index)
    }

    /// Records `cache_file` as the artwork of the station at `index` and says
    /// whether it must be downloaded: a fresh cached file is kept (and
    /// recorded only where nothing is recorded yet) and needs no download;
    /// otherwise the file is recorded in any case and must be downloaded.
    pub fn record_artwork(&mut self, index: usize, cache_file: PathBuf, fresh: bool) -> (download:
        bool)
        ensures
            download == !fresh,
            fresh && old(self)@.contains_key(index) ==> final(self)@ == old(self)@,
            !(fresh && old(self)@.contains_key(index)) ==> final(self)@ == old(self)@.insert(
                index,
                cache_file,
            ),
    {
        if fresh {
            if !self.cache.contains_key(&index) {
                self.cache.insert(index, cache_file);
            }
            false
        } else {
            self.cache.insert(index, cache_file);
            true
        }
    }
}

/// The artwork to load when the station list is shown: the position and
/// address of each station whose artwork address is present and not empty.
pub open spec fn artwork_wanted(flat: Seq<Station>) -> Seq<(usize, Seq<char>)>
    decreases flat.len(),
{
    if flat.len() == 0 {
        Seq::empty()
    } else {
        let prev = artwork_wanted(flat.drop_last());
        match flat.last().artwork {
            Some(a) => if a@.len() > 0 {
                prev.push(((flat.len() - 1) as usize, a@))
            } else {
                prev
            },
            None => prev,
        }
    }
}

/// Which artwork is loaded: every station whose artwork address is present
/// and not empty is asked for, under its own position and with its own
/// address, whatever the stations before it hold; nothing else is asked for;
/// and the requests come in station order, each station at most once.
pub proof fn lemma_artwork_wanted(flat: Seq<Station>)
    requires
        flat.len() <= usize::MAX,
    ensures
        forall|i: int|
            #![trigger flat[i]]
            0 <= i < flat.len() && (flat[i].artwork matches Some(a) && a@.len() > 0)
                ==> artwork_wanted(flat).contains((i as usize, flat[i].artwork->0@)),
        forall|k: int|
            #![trigger artwork_wanted(flat)[k]]
            0 <= k < artwork_wanted(flat).len() ==> {
                let w = artwork_wanted(flat)[k];
                &&& w.0 < flat.len()
                &&& flat[w.0 as int].artwork matches Some(a)
                &&& a@ == w.1
                &&& w.1.len() > 0
            },
        forall|k: int, l: int|
            #![trigger artwork_wanted(flat)[k], artwork_wanted(flat)[l]]
            0 <= k < l < artwork_wanted(flat).len() ==> artwork_wanted(flat)[k].0
                < artwork_wanted(flat)[l].0,
    decreases flat.len(),
{
    if flat.len() > 0 {
        let d = flat.drop_last();
        lemma_artwork_wanted(d);
        let p = artwork_wanted(d);
        let w = artwork_wanted(flat);
        let n = flat.len() - 1;
        assert forall|i: int|
            #![trigger flat[i]]
            0 <= i < flat.len() && (flat[i].artwork matches Some(a) && a@.len() > 0) implies w.contains(
            (i as usize, flat[i].artwork->0@),
        ) by {
            if i < n {
                assert(d[i] == flat[i]);
                let x = (i as usize, flat[i].artwork->0@);
                assert(p.contains(x));
                let j = choose|j: int| 0 <= j < p.len() && p[j] == x;
                assert(w[j] == x);
            } else {
                assert(w[p.len() as int] == (i as usize, flat[i].artwork->0@));
            }
        }
        assert forall|k: int|
            #![trigger w[k]]
            0 <= k < w.len() implies {
            let e = w[k];
            &&& e.0 < flat.len()
            &&& flat[e.0 as int].artwork matches Some(a)
            &&& a@ == e.1
            &&& e.1.len() > 0
        } by {
            if k < p.len() {
                assert(w[k] == p[k]);
                assert(d[p[k].0 as int] == flat[p[k].0 as int]);
            }
        }
        assert forall|k: int, l: int|
            #![trigger w[k], w[l]]
            0 <= k < l < w.len() implies w[k].0 < w[l].0 by {
            if l < p.len() {
                assert(w[k] == p[k]);
                assert(w[l] == p[l]);
            } else {
                assert(w[k] == p[k]);
            }
        }
    }
}

/// The stations whose artwork is loaded when the station list opens (see
/// `artwork_wanted`).
pub fn artwork_requests(flat: &[Station]) -> (r: Vec<(usize, String)>)
    ensures
        r@.map_values(|p: (usize, String)| (p.0, p.1@)) == artwork_wanted(flat@),
{
    let mut r: Vec<(usize, String)> = Vec::new();
    let mut i: usize = 0;
    while i < flat.len()
        invariant
            i <= flat@.len(),
            r@.map_values(|p: (usize, String)| (p.0, p.1@)) == artwork_wanted(flat@.take(i as int)),
        decreases flat.len() - i,
    {
        proof {
            assert(flat@.take(i + 1).drop_last() =~= flat@.take(i as int));
            assert(flat@.take(i + 1).last() == flat@[i as int]);
        }
        let ghost old_r = r@;
        match &flat[i].artwork {
            Some(a) => {
                if !a.as_str().is_empty() {
                    r.push((i, a.clone()));
                    assert(r@.map_values(|p: (usize, String)| (p.0, p.1@)) =~= old_r.map_values(
                        |p: (usize, String)| (p.0, p.1@),
                    ).push((i, a@)));
                }
            },
            None => {},
        }
        i += 1;
    }
    assert(flat@.take(flat.len() as int) =~= flat@);
    r
}

} // verus!
