//! The decisions around playback: which address and name a station plays
//! under, how stream tags are shown, and the first entry of a PLS file.
use vstd::prelude::*;
use crate::pls::opt_str;
use crate::text::{
    chars_of, ends_with, has_prefix, has_prefix_ci, has_suffix, slice_chars, split, split_chars,
    starts_with, starts_with_ci, string_of, trim, trim_chars,
};

verus! {

/// What the scan of a PLS file has found so far: the first entry's address
/// and title.
pub open spec fn first_entry_step(
    st: (Option<Seq<char>>, Option<Seq<char>>),
    l: Seq<char>,
) -> (Option<Seq<char>>, Option<Seq<char>>) {
    if st.0 is Some && st.1 is Some {
        st
    } else if starts_with_ci(l, "file1="@) {
        (Some(l.skip(6)), st.1)
    } else if starts_with_ci(l, "title1="@) {
        (st.0, Some(l.skip(7)))
    } else {
        st
    }
}

/// The scan over trimmed lines, which stops once both are found.
pub open spec fn first_entry_scan(lines: Seq<Seq<char>>) -> (Option<Seq<char>>, Option<Seq<char>>)
    decreases lines.len(),
{
    if lines.len() == 0 {
        (None, None)
    } else {
        first_entry_step(first_entry_scan(lines.drop_last()), trim(lines.last()))
    }
}

/// The address of `File1` and the title of `Title1` (empty when absent), as
/// the scan finds them; `None` without a `File1` line.
pub open spec fn first_pls_entry(content: Seq<char>) -> Option<(Seq<char>, Seq<char>)> {
    let st = first_entry_scan(split(content, '\n'));
    match st.0 {
        Some(u) => Some(
            (
                u,
                match st.1 {
                    Some(t) => t,
                    None => Seq::empty(),
                },
            ),
        ),
        None => None,
    }
}

/// The stream address and title of the first entry of a PLS file (see
/// `first_pls_entry`).
pub fn resolve_pls(content: &str) -> (r: Option<(String, String)>)
    ensures
        match (r, first_pls_entry(content@)) {
            (Some((u, t)), Some((a, b))) => u@ == a && t@ == b,
            (None, None) => true,
            _ => false,
        },
{
    let chars = chars_of(content);
    let lines = split_chars(&chars, '\n');
    let ghost all = split(content@, '\n');
    let mut url: Option<Vec<char>> = None;
    let mut title: Option<Vec<char>> = None;
    let mut i: usize = 0;
    assert(all.take(0) =~= Seq::<Seq<char>>::empty());
    while i < lines.len()
        invariant
            i <= lines@.len() == all.len(),
            all == split(content@, '\n'),
            forall|k: int| 0 <= k < lines@.len() ==> (#[trigger] lines@[k])@ == all[k],
            first_entry_scan(all.take(i as int)) == (
                match url {
                    Some(v) => Some(v@),
                    None => None,
                },
                match title {
                    Some(v) => Some(v@),
                    None => None,
                },
            ),
        decreases lines.len() - i,
    {
        proof {
            assert(all.take(i + 1).drop_last() =~= all.take(i as int));
            assert(all.take(i + 1).last() == all[i as int]);
            reveal_strlit("file1=");
            reveal_strlit("title1=");
        }
        if url.is_some() && title.is_some() {
            i += 1;
        } else {
            let line = trim_chars(&lines[i]);
            if has_prefix_ci(&line, "file1=") {
                url = Some(slice_chars(&line, 6, line.len()));
                assert(url.unwrap()@ =~= line@.skip(6));
            } else if has_prefix_ci(&line, "title1=") {
                title = Some(slice_chars(&line, 7, line.len()));
                assert(title.unwrap()@ =~= line@.skip(7));
            }
            i += 1;
        }
    }
    assert(all.take(all.len() as int) =~= all);
    match url {
        Some(u) => {
            let t = match title {
                Some(t) => string_of(&t),
                None => String::new(),
            };
            Some((string_of(&u), t))
        },
        None => None,
    }
}

/// How stream tags are shown: `Artist - Title`, or whichever of the two is
/// present.
pub open spec fn tag_text(artist: Option<Seq<char>>, title: Option<Seq<char>>) -> Option<Seq<char>> {
    match (artist, title) {
        (Some(a), Some(t)) => Some(a + " - "@ + t),
        (None, Some(t)) => Some(t),
        (Some(a), None) => Some(a),
        (None, None) => None,
    }
}

/// The now-playing text for the artist and title tags of a stream.
pub fn tag_display(artist: Option<String>, title: Option<String>) -> (r: Option<String>)
    ensures
        opt_str(r) == tag_text(opt_str(artist), opt_str(title)),
{
    match (artist, title) {
        (Some(a), Some(t)) => {
            let mut v = chars_of(a.as_str());
            let sep = chars_of(" - ");
            let tv = chars_of(t.as_str());
            let mut i: usize = 0;
            let ghost base = v@;
            while i < sep.len()
                invariant
                    i <= sep@.len(),
                    v@ == base + sep@.take(i as int),
                decreases sep.len() - i,
            {
                v.push(sep[i]);
                assert(sep@.take(i + 1) =~= sep@.take(i as int).push(sep@[i as int]));
                i += 1;
            }
            let ghost mid = v@;
            let mut j: usize = 0;
            while j < tv.len()
                invariant
                    j <= tv@.len(),
                    v@ == mid + tv@.take(j as int),
                decreases tv.len() - j,
            {
                v.push(tv[j]);
                assert(tv@.take(j + 1) =~= tv@.take(j as int).push(tv@[j as int]));
                j += 1;
            }
            assert(sep@.take(sep@.len() as int) =~= sep@);
            assert(tv@.take(tv@.len() as int) =~= tv@);
            assert(v@ =~= a@ + " - "@ + t@);
            Some(string_of(&v))
        },
        (None, Some(t)) => Some(t),
        (Some(a), None) => Some(a),
        (None, None) => None,
    }
}

/// Whether an address names a PLS playlist (it ends with `.pls`).
pub fn is_pls_url(url: &str) -> (r: bool)
    ensures
        r == ends_with(url@, ".pls"@),
{
    let c = chars_of(url);
    has_suffix(&c, ".pls")
}

/// Whether a playlist address is fetched over HTTP(S) rather than read from
/// a local file.
pub fn is_remote_url(url: &str) -> (r: bool)
    ensures
        r == (starts_with(url@, "http://"@) || starts_with(url@, "https://"@)),
{
    let c = chars_of(url);
    has_prefix(&c, "http://") || has_prefix(&c, "https://")
}

/// The stream address and display name under which `url` plays: for a PLS
/// address, what its first entry gave when it could be read (`resolved`);
/// otherwise the address itself and `fallback_name`.
pub open spec fn target_of(
    url: Seq<char>,
    fallback_name: Seq<char>,
    resolved: Option<(Seq<char>, Seq<char>)>,
) -> (Seq<char>, Seq<char>) {
    if ends_with(url, ".pls"@) {
        match resolved {
            Some(p) => p,
            None => (url, fallback_name),
        }
    } else {
        (url, fallback_name)
    }
}

pub open spec fn opt_pair(o: Option<(String, String)>) -> Option<(Seq<char>, Seq<char>)> {
    match o {
        Some((a, b)) => Some((a@, b@)),
        None => None,
    }
}

/// The stream address and display name for playing `url` (see `target_of`).
pub fn playback_target(url: &str, fallback_name: &str, resolved: Option<(String, String)>) -> (r: (
    String,
    String,
))
    ensures
        (r.0@, r.1@) == target_of(url@, fallback_name@, opt_pair(resolved)),
{
    if is_pls_url(url) {
        match resolved {
            Some(p) => p,
            None => (url.to_owned(), fallback_name.to_owned()),
        }
    } else {
        (url.to_owned(), fallback_name.to_owned())
    }
}

} // verus!
