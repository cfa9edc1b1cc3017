use vstd::prelude::*;

use crate::text::{
    all_digits, append_chars, chars_at, chars_of, decimal_chars, find_first, is_digit,
    is_first_index_of, lemma_decimal_digits, lemma_parse_decimal_roundtrip, lemma_split_once_at,
    lemma_split_once_none, parse_u32_range, parse_u32_spec, split_once, string_of,
    string_of_range,
};

verus! {

/// Where the raw modlist files are served from; a file's URL is this followed by its name.
pub const RAW_BASE_URL: &'static str = "https://raw.githubusercontent.com/NerArth/CreateCore/refs/heads/main/modlists/";

/// A modpack version: `(major, minor, patch)`.
pub type Version = (u32, u32, u32);

/// The text in front of the version in a modlist file name.
pub open spec fn modlist_prefix() -> Seq<char> {
    seq!['C', 'r', 'e', 'a', 't', 'e', 'C', 'o', 'r', 'e', '-', 'v']
}

/// The extension of a modlist file name.
pub open spec fn modlist_suffix() -> Seq<char> {
    seq!['.', 'c', 's', 'v']
}

fn modlist_prefix_chars() -> (v: Vec<char>)
    ensures
        v@ == modlist_prefix(),
{
    let v = vec!['C', 'r', 'e', 'a', 't', 'e', 'C', 'o', 'r', 'e', '-', 'v'];
    assert(v@ =~= modlist_prefix());
    v
}

fn modlist_suffix_chars() -> (v: Vec<char>)
    ensures
        v@ == modlist_suffix(),
{
    let v = vec!['.', 'c', 's', 'v'];
    assert(v@ =~= modlist_suffix());
    v
}

/// The text between `CreateCore-v` and `.csv` in `name`, when it has both.
pub open spec fn version_text(name: Seq<char>) -> Option<Seq<char>> {
    let p = modlist_prefix().len();
    let x = modlist_suffix().len();
    if name.len() >= p + x && name.subrange(0, p as int) == modlist_prefix() && name.subrange(
        name.len() - x,
        name.len() as int,
    ) == modlist_suffix() {
        Some(name.subrange(p as int, name.len() - x))
    } else {
        None
    }
}

/// The version that a file name `CreateCore-vX.Y.Z.csv` names: the text between the prefix and
/// `.csv` is cut at its first dot and the rest again at its first dot, and each of the three
/// parts must read as a `u32`.
#[verifier::opaque]
pub open spec fn spec_parse_csv_version(name: Seq<char>) -> Option<Version> {
    match version_text(name) {
        None => None,
        Some(inner) => match split_once(inner, '.') {
            None => None,
            Some((major, rest)) => match split_once(rest, '.') {
                None => None,
                Some((minor, patch)) => match (
                    parse_u32_spec(major),
                    parse_u32_spec(minor),
                    parse_u32_spec(patch),
                ) {
                    (Some(a), Some(b), Some(c)) => Some((a, b, c)),
                    _ => None,
                },
            },
        },
    }
}

/// Parses a file name like `CreateCore-v3.0.0.csv` into a comparable `(major, minor, patch)`
/// tuple; `None` when the name does not match that pattern.
pub fn parse_csv_version(name: &str) -> (r: Option<Version>)
    ensures
        r == spec_parse_csv_version(name@),
{
    reveal(spec_parse_csv_version);
    let v = chars_of(name);
    let p = modlist_prefix_chars();
    let x = modlist_suffix_chars();
    let n = v.len();
    if n < 16 {
        return None;
    }
    if !chars_at(&v, 0, &p) {
        return None;
    }
    let end = n - 4;
    if !chars_at(&v, end, &x) {
        return None;
    }
    let ghost inner = v@.subrange(12, end as int);
    assert(version_text(name@) == Some(inner));
    let first = find_first(&v, 12, end, '.');
    let i = match first {
        None => {
            proof {
                lemma_split_once_none(inner, '.');
            }
            return None;
        },
        Some(i) => i,
    };
    proof {
        lemma_split_once_at(inner, '.', i - 12);
        assert(inner.subrange(0, i - 12) =~= v@.subrange(12, i as int));
        assert(inner.subrange(i - 12 + 1, inner.len() as int) =~= v@.subrange(i + 1, end as int));
    }
    let ghost rest = v@.subrange(i + 1, end as int);
    let second = find_first(&v, i + 1, end, '.');
    let j = match second {
        None => {
            proof {
                assert forall|k: int| 0 <= k < rest.len() implies rest[k] != '.' by {
                    assert(rest[k] == v@[i + 1 + k]);
                }
                lemma_split_once_none(rest, '.');
            }
            return None;
        },
        Some(j) => j,
    };
    proof {
        lemma_split_once_at(rest, '.', j - (i + 1));
        assert(rest.subrange(0, j - (i + 1)) =~= v@.subrange(i + 1, j as int));
        assert(rest.subrange(j - (i + 1) + 1, rest.len() as int) =~= v@.subrange(
            j + 1,
            end as int,
        ));
    }
    let major = parse_u32_range(&v, 12, i);
    let minor = parse_u32_range(&v, i + 1, j);
    let patch = parse_u32_range(&v, j + 1, end);
    match (major, minor, patch) {
        (Some(a), Some(b), Some(c)) => Some((a, b, c)),
        _ => None,
    }
}

/// The file name `CreateCore-v{a}.{b}.{c}.csv`.
pub open spec fn modlist_file_name(a: u32, b: u32, c: u32) -> Seq<char> {
    modlist_prefix() + decimal_chars(a as nat) + seq!['.'] + decimal_chars(b as nat) + seq!['.']
        + decimal_chars(c as nat) + modlist_suffix()
}

proof fn lemma_no_dot_in_digits(s: Seq<char>)
    requires
        all_digits(s),
    ensures
        forall|k: int| 0 <= k < s.len() ==> s[k] != '.',
{
    assert forall|k: int| 0 <= k < s.len() implies s[k] != '.' by {
        assert(is_digit(s[k]));
    }
}

/// The name of the file for version `(a, b, c)` parses back to `(a, b, c)`.
pub proof fn lemma_modlist_name_roundtrip(a: u32, b: u32, c: u32)
    ensures
        spec_parse_csv_version(modlist_file_name(a, b, c)) == Some((a, b, c)),
{
    reveal(spec_parse_csv_version);
    let da = decimal_chars(a as nat);
    let db = decimal_chars(b as nat);
    let dc = decimal_chars(c as nat);
    lemma_decimal_digits(a as nat);
    lemma_decimal_digits(b as nat);
    lemma_decimal_digits(c as nat);
    lemma_no_dot_in_digits(da);
    lemma_no_dot_in_digits(db);
    lemma_parse_decimal_roundtrip(a);
    lemma_parse_decimal_roundtrip(b);
    lemma_parse_decimal_roundtrip(c);
    let name = modlist_file_name(a, b, c);
    let inner = da + seq!['.'] + db + seq!['.'] + dc;
    assert(name =~= modlist_prefix() + inner + modlist_suffix());
    assert(name.subrange(0, 12) =~= modlist_prefix());
    assert(name.subrange(name.len() - 4, name.len() as int) =~= modlist_suffix());
    assert(name.subrange(12, name.len() - 4) =~= inner);
    assert(version_text(name) == Some(inner));
    let i = da.len() as int;
    assert(is_first_index_of(inner, '.', i)) by {
        assert forall|j: int| 0 <= j < i implies inner[j] != '.' by {
            assert(inner[j] == da[j]);
        }
    }
    lemma_split_once_at(inner, '.', i);
    let rest = db + seq!['.'] + dc;
    assert(inner.subrange(0, i) =~= da);
    assert(inner.subrange(i + 1, inner.len() as int) =~= rest);
    let j = db.len() as int;
    assert(is_first_index_of(rest, '.', j)) by {
        assert forall|k: int| 0 <= k < j implies rest[k] != '.' by {
            assert(rest[k] == db[k]);
        }
    }
    lemma_split_once_at(rest, '.', j);
    assert(rest.subrange(0, j) =~= db);
    assert(rest.subrange(j + 1, rest.len() as int) =~= dc);
}

/// A name that parses has the shape `CreateCore-v{x}.{y}.{z}.csv`, where `x` and `y` hold no
/// dot and `x`, `y`, `z` read as the three parts of the version.
pub proof fn lemma_parsed_name_shape(name: Seq<char>)
    ensures
        spec_parse_csv_version(name) matches Some(v) ==> exists|x: Seq<char>, y: Seq<char>, z: Seq<char>|
            {
                &&& #[trigger] (modlist_prefix() + x + seq!['.'] + y + seq!['.'] + z + modlist_suffix()) == name
                &&& !x.contains('.')
                &&& !y.contains('.')
                &&& parse_u32_spec(x) == Some(v.0)
                &&& parse_u32_spec(y) == Some(v.1)
                &&& parse_u32_spec(z) == Some(v.2)
            },
{
    reveal(spec_parse_csv_version);
    if let Some(v) = spec_parse_csv_version(name) {
        let inner = version_text(name)->0;
        let i = choose|i: int| is_first_index_of(inner, '.', i);
        let x = inner.subrange(0, i);
        let rest = inner.subrange(i + 1, inner.len() as int);
        let j = choose|j: int| is_first_index_of(rest, '.', j);
        let y = rest.subrange(0, j);
        let z = rest.subrange(j + 1, rest.len() as int);
        assert(inner =~= x + seq!['.'] + y + seq!['.'] + z);
        assert(name =~= modlist_prefix() + inner + modlist_suffix());
        assert(modlist_prefix() + x + seq!['.'] + y + seq!['.'] + z + modlist_suffix() =~= name);
        assert(!x.contains('.')) by {
            assert forall|k: int| 0 <= k < x.len() implies x[k] != '.' by {
                assert(x[k] == inner[k]);
            }
        }
        assert(!y.contains('.')) by {
            assert forall|k: int| 0 <= k < y.len() implies y[k] != '.' by {
                assert(y[k] == rest[k]);
            }
        }
    }
}

/// Versions ordered as tuples are: by major, then minor, then patch.
pub open spec fn version_le(x: Version, y: Version) -> bool {
    ||| x.0 < y.0
    ||| x.0 == y.0 && x.1 < y.1
    ||| x.0 == y.0 && x.1 == y.1 && x.2 <= y.2
}

fn version_le_exec(x: Version, y: Version) -> (b: bool)
    ensures
        b == version_le(x, y),
{
    x.0 < y.0 || (x.0 == y.0 && x.1 < y.1) || (x.0 == y.0 && x.1 == y.1 && x.2 <= y.2)
}

/// Among the first `n` names, `names[i]` is the modlist to use: it names a version, none of
/// them names a later one, and none after it names the same one (the last of the highest wins).
pub open spec fn is_latest_among(names: Seq<Seq<char>>, n: int, i: int) -> bool {
    &&& 0 <= i < n <= names.len()
    &&& spec_parse_csv_version(names[i]) is Some
    &&& forall|k: int|
        0 <= k < n && (#[trigger] spec_parse_csv_version(names[k])) is Some ==> {
            &&& version_le(
                spec_parse_csv_version(names[k])->0,
                spec_parse_csv_version(names[i])->0,
            )
            &&& (i < k ==> spec_parse_csv_version(names[k])->0 != spec_parse_csv_version(
                names[i],
            )->0)
        }
}

/// `names[i]` is the modlist to use among all of `names`.
pub open spec fn is_latest_modlist(names: Seq<Seq<char>>, i: int) -> bool {
    is_latest_among(names, names.len() as int, i)
}

/// None of the first `n` names is a modlist file name.
pub open spec fn no_modlist_among(names: Seq<Seq<char>>, n: int) -> bool {
    forall|k: int| 0 <= k < n ==> (#[trigger] spec_parse_csv_version(names[k])) is None
}

/// No name in `names` is a modlist file name.
pub open spec fn no_modlist(names: Seq<Seq<char>>) -> bool {
    no_modlist_among(names, names.len() as int)
}

/// The position in `names` of the modlist with the highest version (the last one among equals),
/// or `None` when no name is a modlist file name.
pub fn latest_modlist_index(names: &Vec<String>) -> (r: Option<usize>)
    ensures
        match r {
            Some(i) => is_latest_modlist(names.deep_view(), i as int),
            None => no_modlist(names.deep_view()),
        },
{
    let ghost all = names.deep_view();
    let mut best: Option<(usize, Version)> = None;
    let mut k: usize = 0;
    while k < names.len()
        invariant
            k <= names@.len(),
            all == names.deep_view(),
            all.len() == names@.len(),
            match best {
                Some((b, bv)) => {
                    &&& is_latest_among(all, k as int, b as int)
                    &&& spec_parse_csv_version(all[b as int]) == Some(bv)
                },
                None => no_modlist_among(all, k as int),
            },
        decreases names@.len() - k,
    {
        assert(all[k as int] == names@[k as int]@);
        let parsed = parse_csv_version(names[k].as_str());
        match parsed {
            None => {
                match best {
                    Some((b, bv)) => {
                        assert(is_latest_among(all, k + 1, b as int));
                    },
                    None => {
                        assert(no_modlist_among(all, k + 1));
                    },
                }
            },
            Some(v) => {
                let replace = match best {
                    None => true,
                    Some((_, bv)) => version_le_exec(bv, v),
                };
                if replace {
                    proof {
                        assert forall|j: int|
                            0 <= j < k + 1 && (#[trigger] spec_parse_csv_version(
                                all[j],
                            )) is Some implies version_le(
                            spec_parse_csv_version(all[j])->0,
                            v,
                        ) by {}
                        assert(is_latest_among(all, k + 1, k as int));
                    }
                    best = Some((k, v));
                } else {
                    proof {
                        let (b, bv) = best->0;
                        assert(is_latest_among(all, k + 1, b as int));
                    }
                }
            },
        }
        k = k + 1;
    }
    match best {
        Some((b, _)) => Some(b),
        None => None,
    }
}

/// Only one position is the latest modlist.
pub proof fn lemma_latest_modlist_unique(names: Seq<Seq<char>>, i: int, j: int)
    requires
        is_latest_modlist(names, i),
        is_latest_modlist(names, j),
    ensures
        i == j,
{
    let vi = spec_parse_csv_version(names[i])->0;
    let vj = spec_parse_csv_version(names[j])->0;
    assert(version_le(vi, vj));
    assert(version_le(vj, vi));
}

/// The modlist to download among the file names `names`, with the URL it is served from; `None`
/// when no name is a modlist file name.
pub fn detect_latest_version(names: &Vec<String>) -> (r: Option<(String, String)>)
    ensures
        r is None <==> no_modlist(names.deep_view()),
        r matches Some((file, url)) ==> {
            &&& exists|i: int|
                is_latest_modlist(names.deep_view(), i) && file@ == #[trigger] names.deep_view()[i]
            &&& url@ == RAW_BASE_URL@ + file@
        },
{
    match latest_modlist_index(names) {
        None => None,
        Some(i) => {
            let file = names[i].clone();
            assert(file@ == names.deep_view()[i as int]);
            let mut url = string_of(&chars_of(RAW_BASE_URL));
            append_chars(&mut url, &chars_of(file.as_str()));
            Some((file, url))
        },
    }
}

/// `s` with every trailing `.csv` removed, as `str::trim_end_matches(".csv")` leaves it.
pub open spec fn strip_csv_suffixes(s: Seq<char>) -> Seq<char>
    decreases s.len(),
{
    if s.len() >= 4 && s.subrange(s.len() - 4, s.len() as int) == modlist_suffix() {
        strip_csv_suffixes(s.subrange(0, s.len() - 4))
    } else {
        s
    }
}

/// The version label shown for a modlist file: its name without the `.csv` ending.
pub fn version_label(file: &str) -> (r: String)
    ensures
        r@ == strip_csv_suffixes(file@),
{
    let v = chars_of(file);
    let x = modlist_suffix_chars();
    let mut end = v.len();
    assert(v@.subrange(0, end as int) =~= v@);
    while end >= 4 && chars_at(&v, end - 4, &x)
        invariant
            end <= v@.len(),
            x@ == modlist_suffix(),
            strip_csv_suffixes(v@) == strip_csv_suffixes(v@.subrange(0, end as int)),
        decreases end,
    {
        let ghost cur = v@.subrange(0, end as int);
        assert(cur.subrange(cur.len() - 4, cur.len() as int) =~= v@.subrange(
            end - 4,
            end as int,
        ));
        assert(cur.subrange(0, cur.len() - 4) =~= v@.subrange(0, end - 4));
        assert(strip_csv_suffixes(cur) == strip_csv_suffixes(v@.subrange(0, end - 4)));
        end = end - 4;
    }
    proof {
        let cur = v@.subrange(0, end as int);
        if end >= 4 {
            assert(cur.subrange(cur.len() - 4, cur.len() as int) =~= v@.subrange(
                end - 4,
                end as int,
            ));
        }
    }
    string_of_range(&v, 0, end)
}

/// The label of the modlist file for version `(a, b, c)` is its name without `.csv`:
/// `CreateCore-v{a}.{b}.{c}`.
pub proof fn lemma_version_label_of_modlist_name(a: u32, b: u32, c: u32)
    ensures
        strip_csv_suffixes(modlist_file_name(a, b, c)) == modlist_prefix() + decimal_chars(
            a as nat,
        ) + seq!['.'] + decimal_chars(b as nat) + seq!['.'] + decimal_chars(c as nat),
{
    let stem = modlist_prefix() + decimal_chars(a as nat) + seq!['.'] + decimal_chars(b as nat)
        + seq!['.'] + decimal_chars(c as nat);
    let name = modlist_file_name(a, b, c);
    assert(name =~= stem + modlist_suffix());
    assert(name.subrange(name.len() - 4, name.len() as int) =~= modlist_suffix());
    assert(name.subrange(0, name.len() - 4) =~= stem);
    lemma_decimal_digits(c as nat);
    let dc = decimal_chars(c as nat);
    assert(stem.last() == dc.last());
    assert(is_digit(dc[dc.len() - 1]));
    assert(stem.subrange(stem.len() - 4, stem.len() as int)[3] == stem.last());
    assert(modlist_suffix()[3] == 'v');
    assert(stem.subrange(stem.len() - 4, stem.len() as int) != modlist_suffix());
    assert(strip_csv_suffixes(stem) == stem);
    assert(strip_csv_suffixes(name) == strip_csv_suffixes(stem));
}

} // verus!
