use vstd::prelude::*;

use crate::text::{
    after_last, append_chars, before_first, chars_of, decimal_chars, find_first, find_last,
    is_first_index_of, is_last_index_of, lemma_after_last_at, lemma_first_exists,
    lemma_last_exists, lemma_split_once_at, lemma_split_once_none,
    push_decimal, string_of, string_of_range,
};

verus! {

/// The name to save a download under: the part of the URL after its last `/`, cut before the
/// first `?` of that part (the query string).
pub open spec fn file_name_of(url: Seq<char>) -> Seq<char> {
    before_first(after_last(url, '/'), '?')
}

/// Derives a safe filename to save to disk from a CDN URL: the path segment after the last `/`,
/// without any query string.
pub fn derive_filename(url: &str) -> (r: String)
    ensures
        r@ == file_name_of(url@),
        forall|k: int| 0 <= k < r@.len() ==> r@[k] != '/' && r@[k] != '?',
{
    let v = chars_of(url);
    let n = v.len();
    let start = match find_last(&v, '/') {
        Some(k) => {
            proof {
                lemma_after_last_at(v@, '/', k as int);
            }
            k + 1
        },
        None => {
            proof {
                assert(!exists|i: int| is_last_index_of(v@, '/', i));
                assert(v@.subrange(0, n as int) =~= v@);
            }
            0
        },
    };
    let ghost seg = v@.subrange(start as int, n as int);
    assert(after_last(v@, '/') == seg);
    assert forall|k: int| 0 <= k < seg.len() implies seg[k] != '/' by {
        assert(seg[k] == v@[start + k]);
    }
    let end = match find_first(&v, start, n, '?') {
        Some(k) => {
            proof {
                lemma_split_once_at(seg, '?', k - start);
                assert(seg.subrange(0, k - start) =~= v@.subrange(start as int, k as int));
            }
            k
        },
        None => {
            proof {
                assert forall|k: int| 0 <= k < seg.len() implies seg[k] != '?' by {
                    assert(seg[k] == v@[start + k]);
                }
                lemma_split_once_none(seg, '?');
            }
            n
        },
    };
    let r = string_of_range(&v, start, end);
    assert forall|k: int| 0 <= k < r@.len() implies r@[k] != '/' && r@[k] != '?' by {
        assert(r@[k] == seg[k]);
    }
    r
}

/// Where the file name stands in the URL: the URL is some text `p`, then the file name, then some
/// text `q`, where `p` is empty or ends with `/`, `q` is empty or starts with `?`, no `/` follows
/// `p`, and the file name holds no `?`. So the name starts right after the last `/` and ends at
/// the first `?` after it.
pub proof fn lemma_file_name_position(url: Seq<char>)
    ensures
        exists|p: Seq<char>, q: Seq<char>|
            {
                &&& #[trigger] (p + file_name_of(url) + q) == url
                &&& p.len() == 0 || p.last() == '/'
                &&& q.len() == 0 || q[0] == '?'
                &&& forall|k: int| 0 <= k < q.len() ==> q[k] != '/'
                &&& forall|k: int|
                    0 <= k < file_name_of(url).len() ==> file_name_of(url)[k] != '/'
                        && file_name_of(url)[k] != '?'
            },
{
    let start: int = if exists|i: int| is_last_index_of(url, '/', i) {
        let i = choose|i: int| is_last_index_of(url, '/', i);
        lemma_after_last_at(url, '/', i);
        i + 1
    } else {
        assert forall|k: int| 0 <= k < url.len() implies url[k] != '/' by {
            if url[k] == '/' {
                lemma_last_exists(url, '/', k);
            }
        }
        assert(url.subrange(0, url.len() as int) =~= url);
        0
    };
    let seg = url.subrange(start, url.len() as int);
    assert(after_last(url, '/') == seg);
    let p = url.subrange(0, start);
    if exists|j: int| is_first_index_of(seg, '?', j) {
        let j = choose|j: int| is_first_index_of(seg, '?', j);
        lemma_split_once_at(seg, '?', j);
        let r = seg.subrange(0, j);
        let q = seg.subrange(j, seg.len() as int);
        assert(file_name_of(url) == r);
        assert(p + r + q =~= url);
        assert forall|k: int| 0 <= k < q.len() implies q[k] != '/' by {
            assert(q[k] == url[start + j + k]);
        }
        assert forall|k: int| 0 <= k < r.len() implies r[k] != '/' && r[k] != '?' by {
            assert(r[k] == url[start + k]);
        }
    } else {
        assert forall|k: int| 0 <= k < seg.len() implies seg[k] != '?' by {
            if seg[k] == '?' {
                lemma_first_exists(seg, '?', k);
            }
        }
        let q = Seq::<char>::empty();
        assert(file_name_of(url) == seg);
        assert(p + seg + q =~= url);
        assert forall|k: int| 0 <= k < seg.len() implies seg[k] != '/' by {
            assert(seg[k] == url[start + k]);
        }
    }
}

/// Where a downloaded mod is written: `mods/` followed by its file name.
pub fn mod_file_path(file_name: &str) -> (r: String)
    ensures
        r@ == "mods/"@ + file_name@,
{
    let mut r = string_of(&chars_of("mods/"));
    append_chars(&mut r, &chars_of(file_name));
    r
}

/// The line shown before a download starts: `[{position}/{total}] Downloading: {name}...`,
/// counting from one.
pub fn progress_label(index: usize, total: usize, name: &str) -> (r: String)
    requires
        index < total,
    ensures
        r@ == "["@ + decimal_chars((index + 1) as nat) + "/"@ + decimal_chars(total as nat)
            + "] Downloading: "@ + name@ + "..."@,
{
    let mut v: Vec<char> = chars_of("[");
    push_decimal(&mut v, (index + 1) as u64);
    let mut r = string_of(&v);
    append_chars(&mut r, &chars_of("/"));
    let mut t: Vec<char> = Vec::new();
    push_decimal(&mut t, total as u64);
    append_chars(&mut r, &t);
    append_chars(&mut r, &chars_of("] Downloading: "));
    append_chars(&mut r, &chars_of(name));
    append_chars(&mut r, &chars_of("..."));
    assert(r@ =~= "["@ + decimal_chars((index + 1) as nat) + "/"@ + decimal_chars(total as nat)
        + "] Downloading: "@ + name@ + "..."@);
    r
}

} // verus!
