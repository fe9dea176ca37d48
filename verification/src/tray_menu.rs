//! What the tray menu shows: menu ids that carry project names, and the
//! order in which projects are listed.
use vstd::prelude::*;
use vstd::utf8::{decode_utf8, encode_utf8, valid_utf8};

use crate::project_order::{key_views, pick, stable_order, stable_order_of, SortKey};
use crate::settings::{group_of, group_of_project, usage_of, usage_of_project, RecentUse, UiPreferences};
use crate::text::{
    append_chars, chars_equal, chars_of, decimal, push_decimal, contains_text, string_of, string_views, strings_of, text_is, texts,
    texts_of,
};

verus! {

// ---------------------------------------------------------------------------
// Menu ids that carry a project name
// ---------------------------------------------------------------------------

/// Bytes that stand for themselves in a menu id: ASCII letters, digits, `-`,
/// `_` and `.`.
pub open spec fn is_unreserved(b: u8) -> bool {
    ||| 65 <= b <= 90
    ||| 97 <= b <= 122
    ||| 48 <= b <= 57
    ||| b == 45
    ||| b == 95
    ||| b == 46
}

/// The upper-case hexadecimal digit for `n < 16`.
pub open spec fn hex_digit(n: int) -> char {
    if n < 10 {
        (48 + n) as char
    } else {
        (55 + n) as char
    }
}

/// A byte in a menu id: itself when unreserved, else `%` and two upper-case
/// hexadecimal digits.
pub open spec fn byte_id(b: u8) -> Seq<char> {
    if is_unreserved(b) {
        seq![b as char]
    } else {
        seq!['%', hex_digit(b as int / 16), hex_digit(b as int % 16)]
    }
}

/// The menu id text of a byte sequence.
pub open spec fn id_text(bytes: Seq<u8>) -> Seq<char>
    decreases bytes.len(),
{
    if bytes.len() == 0 {
        Seq::<char>::empty()
    } else {
        byte_id(bytes[0]) + id_text(bytes.drop_first())
    }
}

/// The menu id of a project name: its UTF-8 bytes, percent-encoded.
pub open spec fn project_id_text(name: Seq<char>) -> Seq<char> {
    id_text(encode_utf8(name))
}

/// The value of a hexadecimal digit byte.
pub open spec fn hex_value(b: u8) -> Option<int> {
    if 48 <= b <= 57 {
        Some(b - 48)
    } else if 65 <= b <= 70 {
        Some(b - 55)
    } else if 97 <= b <= 102 {
        Some(b - 87)
    } else {
        None
    }
}

/// The byte that two characters read as a base-16 number give, as
/// `u8::from_str_radix` reads them: two hexadecimal digits, or `+` and one.
pub open spec fn hex_pair(h: u8, l: u8) -> Option<u8> {
    match (hex_value(h), hex_value(l)) {
        (Some(a), Some(b)) => Some((a * 16 + b) as u8),
        (_, Some(b)) => if h == 43 {
            Some(b as u8)
        } else {
            None
        },
        _ => None,
    }
}

/// The bytes a menu id stands for: `%` followed by a base-16 pair is that
/// byte, every other byte itself; `None` when a `%` is not followed by one.
pub open spec fn id_bytes(raw: Seq<u8>) -> Option<Seq<u8>>
    decreases raw.len(),
{
    if raw.len() == 0 {
        Some(Seq::<u8>::empty())
    } else if raw[0] == 37 {
        if raw.len() < 3 {
            None
        } else {
            match hex_pair(raw[1], raw[2]) {
                None => None,
                Some(b) => match id_bytes(raw.skip(3)) {
                    Some(rest) => Some(seq![b] + rest),
                    None => None,
                },
            }
        }
    } else {
        match id_bytes(raw.drop_first()) {
            Some(rest) => Some(seq![raw[0]] + rest),
            None => None,
        }
    }
}

/// The project name a menu id carries: the text whose UTF-8 bytes the id
/// stands for; `None` when the id is malformed or the bytes are not UTF-8.
pub open spec fn project_name_from_id(id: Seq<char>) -> Option<Seq<char>> {
    match id_bytes(encode_utf8(id)) {
        Some(b) => if valid_utf8(b) {
            Some(decode_utf8(b))
        } else {
            None
        },
        None => None,
    }
}

// ---------------------------------------------------------------------------
// Lemmas
// ---------------------------------------------------------------------------

/// The bytes of ASCII characters.
pub open spec fn ascii_bytes(cs: Seq<char>) -> Seq<u8> {
    cs.map_values(|c: char| c as u8)
}

proof fn lemma_id_text_ascii(bytes: Seq<u8>)
    ensures
        vstd::utf8::is_ascii_chars(id_text(bytes)),
    decreases bytes.len(),
{
    if bytes.len() > 0 {
        lemma_id_text_ascii(bytes.drop_first());
        let b = bytes[0];
        assert(b as int / 16 < 16 && b as int % 16 < 16);
        let t = id_text(bytes);
        let head = byte_id(b);
        let rest = id_text(bytes.drop_first());
        assert forall|i: int| 0 <= i < t.len() implies '\0' <= #[trigger] t[i] <= '\u{7f}' by {
            if i < head.len() {
                assert(t[i] == head[i]);
            } else {
                assert(t[i] == rest[i - head.len()]);
            }
        }
    }
}

proof fn lemma_decode_byte_id(b: u8, rest: Seq<u8>)
    ensures
        id_bytes(ascii_bytes(byte_id(b)) + rest) == match id_bytes(rest) {
            Some(r) => Some(seq![b] + r),
            None => None::<Seq<u8>>,
        },
{
    let raw = ascii_bytes(byte_id(b)) + rest;
    if is_unreserved(b) {
        assert(raw[0] == b);
        assert(raw.drop_first() =~= rest);
    } else {
        let h = b as int / 16;
        let l = b as int % 16;
        assert(raw[0] == 37u8);
        assert(raw[1] == hex_digit(h) as u8);
        assert(raw[2] == hex_digit(l) as u8);
        assert(hex_value(raw[1]) == Some(h));
        assert(hex_value(raw[2]) == Some(l));
        assert(h * 16 + l == b);
        assert(raw.skip(3) =~= rest);
    }
}

proof fn lemma_ascii_bytes_concat(a: Seq<char>, b: Seq<char>)
    ensures
        ascii_bytes(a + b) == ascii_bytes(a) + ascii_bytes(b),
{
    assert(ascii_bytes(a + b) =~= ascii_bytes(a) + ascii_bytes(b));
}

proof fn lemma_id_bytes_of_id_text(bytes: Seq<u8>)
    ensures
        id_bytes(ascii_bytes(id_text(bytes))) == Some(bytes),
    decreases bytes.len(),
{
    if bytes.len() == 0 {
        assert(ascii_bytes(id_text(bytes)) =~= Seq::<u8>::empty());
    } else {
        lemma_id_bytes_of_id_text(bytes.drop_first());
        lemma_ascii_bytes_concat(byte_id(bytes[0]), id_text(bytes.drop_first()));
        lemma_decode_byte_id(bytes[0], ascii_bytes(id_text(bytes.drop_first())));
        assert(seq![bytes[0]] + bytes.drop_first() =~= bytes);
    }
}

/// A project name read back from its menu id is the name: ids carry names,
/// not positions in a list.
pub proof fn lemma_project_id_roundtrip(name: Seq<char>)
    ensures
        project_name_from_id(project_id_text(name)) == Some(name),
{
    let b = encode_utf8(name);
    let t = id_text(b);
    lemma_id_text_ascii(b);
    vstd::utf8::is_ascii_chars_encode_utf8(t);
    assert(encode_utf8(t) =~= ascii_bytes(t));
    lemma_id_bytes_of_id_text(b);
    vstd::utf8::encode_utf8_valid_utf8(name);
    vstd::utf8::encode_utf8_decode_utf8(name);
}

// ---------------------------------------------------------------------------
// Executable ids
// ---------------------------------------------------------------------------

/// The text whose UTF-8 bytes are `bytes` (`String::from_utf8`); `None`
/// when they are not valid UTF-8.
#[verifier::external_body]
fn string_from_utf8(bytes: Vec<u8>) -> (r: Option<String>)
    ensures
        r is Some <==> valid_utf8(bytes@),
        r matches Some(s) ==> s@ == decode_utf8(bytes@),
{
    String::from_utf8(bytes).ok()
}

/// The upper-case hexadecimal digit for `n < 16` (`hex_digit`).
fn hex_digit_of(n: u8) -> (c: char)
    requires
        n < 16,
    ensures
        c == hex_digit(n as int),
{
    let digits: [char; 16] = [
        '0', '1', '2', '3', '4', '5', '6', '7', '8', '9', 'A', 'B', 'C', 'D', 'E', 'F',
    ];
    let c = digits[n as usize];
    proof {
        assert(digits@ =~= seq![
            '0', '1', '2', '3', '4', '5', '6', '7', '8', '9', 'A', 'B', 'C', 'D', 'E', 'F',
        ]);
    }
    c
}

/// The menu id of a project (`project_id_text`): the bytes of its name,
/// ASCII letters, digits, `-`, `_` and `.` as they are, every other byte as
/// `%` and two upper-case hexadecimal digits.
pub fn project_id(project: &str) -> (r: String)
    ensures
        r@ == project_id_text(project@),
{
    let bytes = project.as_bytes();
    let ghost all = bytes@;
    let mut out: Vec<char> = Vec::new();
    let mut i: usize = 0;
    proof {
        assert(all.skip(0) =~= all);
        assert(out@ + id_text(all) =~= id_text(all));
    }
    while i < bytes.len()
        invariant
            all == bytes@,
            all == encode_utf8(project@),
            i <= bytes.len(),
            out@ + id_text(all.skip(i as int)) == id_text(all),
        decreases bytes.len() - i,
    {
        let b = bytes[i];
        proof {
            let s = all.skip(i as int);
            assert(s[0] == b);
            assert(s.drop_first() =~= all.skip(i + 1));
        }
        let ghost before = out@;
        if (65 <= b && b <= 90) || (97 <= b && b <= 122) || (48 <= b && b <= 57) || b
            == 45 || b == 95 || b == 46 {
            out.push(b as char);
            proof {
                assert(out@ =~= before + byte_id(b));
            }
        } else {
            out.push('%');
            out.push(hex_digit_of(b / 16));
            out.push(hex_digit_of(b % 16));
            proof {
                assert(out@ =~= before + byte_id(b));
            }
        }
        proof {
            assert(out@ + id_text(all.skip(i + 1)) =~= before + (byte_id(b) + id_text(all.skip(i + 1))));
        }
        i += 1;
    }
    proof {
        assert(all.skip(i as int) =~= Seq::<u8>::empty());
        assert(out@ + Seq::<char>::empty() =~= out@);
    }
    string_of(out.as_slice())
}

/// The byte a base-16 pair gives (`hex_pair`).
fn hex_pair_of(h: u8, l: u8) -> (r: Option<u8>)
    ensures
        r == hex_pair(h, l),
{
    let hv: Option<u8> = if 48 <= h && h <= 57 {
        Some(h - 48)
    } else if 65 <= h && h <= 70 {
        Some(h - 55)
    } else if 97 <= h && h <= 102 {
        Some(h - 87)
    } else {
        None
    };
    let lv: Option<u8> = if 48 <= l && l <= 57 {
        Some(l - 48)
    } else if 65 <= l && l <= 70 {
        Some(l - 55)
    } else if 97 <= l && l <= 102 {
        Some(l - 87)
    } else {
        None
    };
    match (hv, lv) {
        (Some(a), Some(b)) => Some(a * 16 + b),
        (_, Some(b)) => if h == 43 {
            Some(b)
        } else {
            None
        },
        _ => None,
    }
}

/// The project name a menu id carries (`project_name_from_id`).
pub fn project_from_id(id: &str) -> (r: Option<String>)
    ensures
        match r {
            Some(s) => project_name_from_id(id@) == Some(s@),
            None => project_name_from_id(id@) is None,
        },
{
    let raw = id.as_bytes();
    let ghost all = raw@;
    let mut bytes: Vec<u8> = Vec::new();
    let mut i: usize = 0;
    proof {
        assert(all.skip(0) =~= all);
        assert forall|rest: Seq<u8>| #[trigger] (bytes@ + rest) == rest by {
            assert(bytes@ + rest =~= rest);
        }
    }
    while i < raw.len()
        invariant
            all == raw@,
            all == encode_utf8(id@),
            i <= raw.len(),
            id_bytes(all) == match id_bytes(all.skip(i as int)) {
                Some(rest) => Some(bytes@ + rest),
                None => None::<Seq<u8>>,
            },
        decreases raw.len() - i,
    {
        let ghost s = all.skip(i as int);
        let ghost before = bytes@;
        proof {
            assert(s[0] == raw@[i as int]);
        }
        if raw[i] == 37 {
            if raw.len() - i < 3 {
                return None;
            }
            proof {
                assert(s[1] == raw@[i + 1]);
                assert(s[2] == raw@[i + 2]);
                assert(s.skip(3) =~= all.skip(i + 3));
            }
            match hex_pair_of(raw[i + 1], raw[i + 2]) {
                Some(b) => {
                    bytes.push(b);
                    proof {
                        assert(bytes@ =~= before + seq![b]);
                        assert forall|rest: Seq<u8>| #[trigger] (before + (seq![b] + rest)) == bytes@ + rest by {
                            assert(before + (seq![b] + rest) =~= bytes@ + rest);
                        }
                    }
                    i += 3;
                },
                None => {
                    return None;
                },
            }
        } else {
            bytes.push(raw[i]);
            proof {
                assert(s.drop_first() =~= all.skip(i + 1));
                assert(bytes@ =~= before + seq![raw@[i as int]]);
                assert forall|rest: Seq<u8>| #[trigger] (before + (seq![raw@[i as int]] + rest)) == bytes@
                    + rest by {
                    assert(before + (seq![raw@[i as int]] + rest) =~= bytes@ + rest);
                }
            }
            i += 1;
        }
    }
    proof {
        assert(all.skip(i as int) =~= Seq::<u8>::empty());
        assert(bytes@ + Seq::<u8>::empty() =~= bytes@);
    }
    let ghost decoded = bytes@;
    let r = string_from_utf8(bytes);
    proof {
        assert(id_bytes(all) == Some(decoded));
    }
    r
}

// ---------------------------------------------------------------------------
// The order of the project lists
// ---------------------------------------------------------------------------

/// What `str::to_lowercase` gives for a text.
pub uninterp spec fn lowercase_of(s: Seq<char>) -> Seq<char>;

/// The text in lower case (`str::to_lowercase`); its result is named
/// `lowercase_of` and depends on the text alone.
#[verifier::external_body]
fn lowercase(s: &str) -> (r: String)
    ensures
        r@ == lowercase_of(s@),
{
    s.to_lowercase()
}

/// The keys of the alphabetical order: the names in lower case.
pub open spec fn alphabetical_keys(items: Seq<Seq<char>>) -> Seq<(int, Seq<char>)> {
    items.map_values(|n: Seq<char>| (0int, lowercase_of(n)))
}

/// The keys of the order by recent use: the latest use, most recent first,
/// then the name.
pub open spec fn recent_keys(items: Seq<Seq<char>>, uses: Seq<crate::settings::RecentUse>) -> Seq<
    (int, Seq<char>),
> {
    items.map_values(|n: Seq<char>| (usage_of(uses, n), n))
}

/// `acc` followed by each item that is not yet among what comes before it.
pub open spec fn append_new(acc: Seq<Seq<char>>, items: Seq<Seq<char>>) -> Seq<Seq<char>>
    decreases items.len(),
{
    if items.len() == 0 {
        acc
    } else {
        let a = append_new(acc, items.drop_last());
        if a.contains(items.last()) {
            a
        } else {
            a.push(items.last())
        }
    }
}

/// The manual order: the names of `order` that are among the items, in
/// that order, then the other items in theirs.
pub open spec fn manual_order_of(order: Seq<Seq<char>>, items: Seq<Seq<char>>) -> Seq<Seq<char>> {
    append_new(order.filter(|n: Seq<char>| items.contains(n)), items)
}

/// The names in the order the settings ask for: `alphabetical` by the names
/// in lower case, `recent` by latest use, otherwise the manual order; the
/// first two keep names of equal rank in their order.
pub open spec fn sorted_names(items: Seq<Seq<char>>, p: UiPreferences) -> Seq<Seq<char>> {
    let mode = p.project_sort_mode@;
    if mode == "alphabetical"@ {
        pick(items, stable_order(alphabetical_keys(items), items.len() as int))
    } else if mode == "recent"@ {
        pick(items, stable_order(recent_keys(items, p.project_recent_usage@), items.len() as int))
    } else {
        manual_order_of(string_views(p.project_manual_order@), items)
    }
}

/// The alphabetical and recent orders rearrange the list: each name of it
/// is taken once, in order of the mode's key (the name in lower case; the
/// latest use, then the name), names of equal key in their order.
pub proof fn lemma_sorted_names_sort(items: Seq<Seq<char>>, p: UiPreferences)
    requires
        p.project_sort_mode@ == "alphabetical"@ || p.project_sort_mode@ == "recent"@,
    ensures
        exists|o: Seq<int>|
            {
                let keys = if p.project_sort_mode@ == "alphabetical"@ {
                    alphabetical_keys(items)
                } else {
                    recent_keys(items, p.project_recent_usage@)
                };
                &&& crate::project_order::lists_each_once(o, items.len() as int)
                &&& crate::project_order::sorted_stably(o, keys)
                &&& #[trigger] pick(items, o) == sorted_names(items, p)
            },
{
    let keys = if p.project_sort_mode@ == "alphabetical"@ {
        alphabetical_keys(items)
    } else {
        recent_keys(items, p.project_recent_usage@)
    };
    crate::project_order::lemma_stable_order_sorts(keys, items.len() as int);
    let o = stable_order(keys, items.len() as int);
    assert(pick(items, o) == sorted_names(items, p));
}

pub proof fn lemma_filter_push<A>(s: Seq<A>, x: A, f: spec_fn(A) -> bool)
    ensures
        s.push(x).filter(f) == if f(x) {
            s.filter(f).push(x)
        } else {
            s.filter(f)
        },
{
    reveal(Seq::filter);
    assert(s.push(x).drop_last() =~= s);
}

/// Copies of the character sequences in the order of `order`.
fn pick_texts(names: &Vec<Vec<char>>, order: &Vec<usize>) -> (r: Vec<Vec<char>>)
    requires
        forall|k: int| 0 <= k < order.len() ==> #[trigger] order@[k] < names.len(),
    ensures
        texts(r@) == pick(texts(names@), order@.map_values(|p: usize| p as int)),
{
    let ghost o = order@.map_values(|p: usize| p as int);
    let mut r: Vec<Vec<char>> = Vec::new();
    let mut k: usize = 0;
    while k < order.len()
        invariant
            o == order@.map_values(|p: usize| p as int),
            forall|j: int| 0 <= j < order.len() ==> #[trigger] order@[j] < names.len(),
            k <= order.len(),
            texts(r@) == pick(texts(names@), o.take(k as int)),
        decreases order.len() - k,
    {
        let mut copy: Vec<char> = Vec::new();
        append_chars(&mut copy, names[order[k]].as_slice());
        let ghost before = r@;
        r.push(copy);
        proof {
            assert(o.take(k + 1) =~= o.take(k as int).push(order@[k as int] as int));
            let p = order@[k as int] as int;
            assert(texts(names@)[p] == names@[p]@);
            assert(texts(r@) =~= texts(before).push(names@[p]@));
            assert(texts(r@) =~= pick(texts(names@), o.take(k + 1)));
        }
        k += 1;
    }
    proof {
        assert(o.take(order.len() as int) =~= o);
    }
    r
}

/// The names in the manual order (`manual_order_of`).
fn manual_order_names(order: &Vec<Vec<char>>, names: &Vec<Vec<char>>) -> (r: Vec<Vec<char>>)
    ensures
        texts(r@) == manual_order_of(texts(order@), texts(names@)),
{
    let ghost items = texts(names@);
    let ghost f = |n: Seq<char>| items.contains(n);
    let mut ordered: Vec<Vec<char>> = Vec::new();
    let mut j: usize = 0;
    proof {
        assert(texts(order@).take(0).filter(f) =~= Seq::<Seq<char>>::empty()) by {
            reveal(Seq::filter);
        }
    }
    while j < order.len()
        invariant
            items == texts(names@),
            f == (|n: Seq<char>| items.contains(n)),
            j <= order.len(),
            texts(ordered@) == texts(order@).take(j as int).filter(f),
        decreases order.len() - j,
    {
        proof {
            assert(texts(order@).take(j + 1) =~= texts(order@).take(j as int).push(order@[j as int]@));
            lemma_filter_push(texts(order@).take(j as int), order@[j as int]@, f);
        }
        if contains_text(names, order[j].as_slice()) {
            let mut copy: Vec<char> = Vec::new();
            append_chars(&mut copy, order[j].as_slice());
            let ghost before = ordered@;
            ordered.push(copy);
            proof {
                assert(texts(ordered@) =~= texts(before).push(order@[j as int]@));
            }
        }
        j += 1;
    }
    proof {
        assert(texts(order@).take(order.len() as int) =~= texts(order@));
    }
    let ghost prefix = texts(ordered@);
    let mut i: usize = 0;
    proof {
        assert(items.take(0) =~= Seq::<Seq<char>>::empty());
    }
    while i < names.len()
        invariant
            items == texts(names@),
            i <= names.len(),
            texts(ordered@) == append_new(prefix, items.take(i as int)),
        decreases names.len() - i,
    {
        proof {
            assert(items.take(i + 1).drop_last() =~= items.take(i as int));
            assert(items.take(i + 1).last() == names@[i as int]@);
        }
        if !contains_text(&ordered, names[i].as_slice()) {
            let mut copy: Vec<char> = Vec::new();
            append_chars(&mut copy, names[i].as_slice());
            let ghost before = ordered@;
            ordered.push(copy);
            proof {
                assert(texts(ordered@) =~= texts(before).push(names@[i as int]@));
            }
        }
        i += 1;
    }
    proof {
        assert(items.take(names.len() as int) =~= items);
    }
    ordered
}

/// The names of one list in the order the settings ask for (`sorted_names`).
pub fn sort_project_names(items: &[String], settings: &UiPreferences) -> (r: Vec<String>)
    ensures
        string_views(r@) == sorted_names(string_views(items@), *settings),
{
    let names = texts_of(items);
    let ghost ns = texts(names@);
    let mode = settings.project_sort_mode.as_str();
    if text_is(mode, "alphabetical") || text_is(mode, "recent") {
        let alphabetical = text_is(mode, "alphabetical");
        let mut keys: Vec<SortKey> = Vec::new();
        let mut i: usize = 0;
        while i < items.len()
            invariant
                ns == texts(names@),
                ns == string_views(items@),
                i <= items.len(),
                keys.len() == i,
                forall|k: int|
                    0 <= k < i ==> #[trigger] key_views(keys@)[k] == if alphabetical {
                        alphabetical_keys(ns)[k]
                    } else {
                        recent_keys(ns, settings.project_recent_usage@)[k]
                    },
            decreases items.len() - i,
        {
            proof {
                assert(ns[i as int] == items@[i as int]@);
            }
            let key = if alphabetical {
                let lower = lowercase(items[i].as_str());
                SortKey { rank: 0, text: chars_of(lower.as_str()) }
            } else {
                SortKey {
                    rank: usage_of_project(&settings.project_recent_usage, items[i].as_str()),
                    text: chars_of(items[i].as_str()),
                }
            };
            let ghost before = keys@;
            keys.push(key);
            proof {
                assert forall|k: int| 0 <= k < i + 1 implies #[trigger] key_views(keys@)[k] == if alphabetical {
                    alphabetical_keys(ns)[k]
                } else {
                    recent_keys(ns, settings.project_recent_usage@)[k]
                } by {
                    if k < i {
                        assert(keys@[k] == before[k]);
                        assert(key_views(before)[k] == key_views(keys@)[k]);
                    }
                }
            }
            i += 1;
        }
        proof {
            if alphabetical {
                assert(key_views(keys@) =~= alphabetical_keys(ns));
            } else {
                assert(key_views(keys@) =~= recent_keys(ns, settings.project_recent_usage@));
            }
        }
        let order = stable_order_of(&keys);
        let picked = pick_texts(&names, &order);
        strings_of(&picked)
    } else {
        let order = texts_of(settings.project_manual_order.as_slice());
        let ordered = manual_order_names(&order, &names);
        strings_of(&ordered)
    }
}

/// The permanent and the ad-hoc projects, each in the order the settings
/// ask for (`sorted_names`).
pub fn sorted_project_lists(projects_list: &[String], adhoc_list: &[String], settings: &UiPreferences) -> (r: (
    Vec<String>,
    Vec<String>,
))
    ensures
        string_views(r.0@) == sorted_names(string_views(projects_list@), *settings),
        string_views(r.1@) == sorted_names(string_views(adhoc_list@), *settings),
{
    (sort_project_names(projects_list, settings), sort_project_names(adhoc_list, settings))
}

// ---------------------------------------------------------------------------
// Groups of the first menu level
// ---------------------------------------------------------------------------

/// An entry of the first menu level: a group's name and its projects, or no
/// name and a single project.
pub type GroupView = (Option<Seq<char>>, Seq<Seq<char>>);

/// The position of the first entry of the group named `g`.
pub open spec fn find_group(es: Seq<GroupView>, g: Seq<char>) -> Option<int>
    decreases es.len(),
{
    if es.len() == 0 {
        None
    } else if es[0].0 == Some(g) {
        Some(0)
    } else {
        match find_group(es.drop_first(), g) {
            Some(i) => Some(i + 1),
            None => None,
        }
    }
}

/// The entries of the projects in their order: a project with a group joins
/// that group's entry (made where its first project stands), any other
/// stands alone.
pub open spec fn group_entries(projects: Seq<Seq<char>>, groups: Seq<crate::settings::ProjectGroup>) -> Seq<
    GroupView,
>
    decreases projects.len(),
{
    if projects.len() == 0 {
        Seq::<GroupView>::empty()
    } else {
        let es = group_entries(projects.drop_last(), groups);
        let p = projects.last();
        match group_of(groups, p) {
            Some(g) => match find_group(es, g) {
                Some(i) => es.update(i, (es[i].0, es[i].1.push(p))),
                None => es.push((Some(g), seq![p])),
            },
            None => es.push((None::<Seq<char>>, seq![p])),
        }
    }
}

/// The name an entry is sorted by: its group's name, or its project.
pub open spec fn entry_name(e: GroupView) -> Seq<char> {
    match e.0 {
        Some(g) => g,
        None => e.1[0],
    }
}

/// The latest use of any of the projects, 0 when none was used.
pub open spec fn recency(members: Seq<Seq<char>>, uses: Seq<RecentUse>) -> int
    decreases members.len(),
{
    if members.len() == 0 {
        0
    } else {
        let rest = recency(members.drop_last(), uses);
        let u = usage_of(uses, members.last());
        if u > rest {
            u
        } else {
            rest
        }
    }
}

proof fn lemma_usage_of_nonneg(uses: Seq<RecentUse>, name: Seq<char>)
    ensures
        usage_of(uses, name) >= 0,
    decreases uses.len(),
{
    if uses.len() > 0 && uses[0].project@ != name {
        lemma_usage_of_nonneg(uses.drop_first(), name);
    }
}

/// The latest use of a list of projects is at least the use of each of them
/// and the use of one of them (0 for none).
pub proof fn lemma_recency_is_latest_use(members: Seq<Seq<char>>, uses: Seq<RecentUse>)
    ensures
        forall|i: int| 0 <= i < members.len() ==> usage_of(uses, #[trigger] members[i]) <= recency(members, uses),
        (members.len() == 0 && recency(members, uses) == 0) || exists|i: int|
            0 <= i < members.len() && recency(members, uses) == usage_of(uses, #[trigger] members[i]),
    decreases members.len(),
{
    if members.len() > 0 {
        let init = members.drop_last();
        lemma_recency_is_latest_use(init, uses);
        lemma_usage_of_nonneg(uses, members.last());
        assert forall|i: int| 0 <= i < members.len() implies usage_of(uses, #[trigger] members[i]) <= recency(
            members,
            uses,
        ) by {
            if i < init.len() {
                assert(init[i] == members[i]);
            }
        }
        let u = usage_of(uses, members.last());
        if u > recency(init, uses) {
            assert(recency(members, uses) == usage_of(uses, members[members.len() - 1]));
        } else if init.len() == 0 {
            assert(recency(members, uses) == 0);
            lemma_usage_of_nonneg(uses, members[0]);
            assert(usage_of(uses, members[0]) <= 0);
            assert(recency(members, uses) == usage_of(uses, members[0]));
        } else {
            let i = choose|i: int| 0 <= i < init.len() && recency(init, uses) == usage_of(uses, #[trigger] init[i]);
            assert(init[i] == members[i]);
            assert(recency(members, uses) == usage_of(uses, members[i]));
        }
    }
}

/// The key an entry is sorted by: its name in lower case for `alphabetical`,
/// else its latest use, most recent first, then its name.
pub open spec fn entry_key(e: GroupView, p: UiPreferences) -> (int, Seq<char>) {
    if p.project_sort_mode@ == "alphabetical"@ {
        (0, lowercase_of(entry_name(e)))
    } else {
        (recency(e.1, p.project_recent_usage@), entry_name(e))
    }
}

/// In the `recent` order an entry of the menu ranks by the latest recorded
/// use among all its projects: its rank is at least the use of every one of
/// them, and is the use of one of them (0 for an entry with none).
pub proof fn lemma_group_rank_is_latest_use(e: GroupView, p: UiPreferences)
    requires
        p.project_sort_mode@ != "alphabetical"@,
    ensures
        forall|i: int|
            0 <= i < e.1.len() ==> usage_of(p.project_recent_usage@, #[trigger] e.1[i]) <= entry_key(e, p).0,
        (e.1.len() == 0 && entry_key(e, p).0 == 0) || exists|i: int|
            0 <= i < e.1.len() && entry_key(e, p).0 == usage_of(p.project_recent_usage@, #[trigger] e.1[i]),
{
    lemma_recency_is_latest_use(e.1, p.project_recent_usage@);
}

/// The first level of the project menu: without grouping every project on
/// its own; with grouping the entries of `group_entries`, which the
/// `alphabetical` and `recent` modes sort (keeping entries of equal rank in
/// their order), and whose projects they sort as `sorted_names` does.
pub open spec fn grouped_projects(projects: Seq<Seq<char>>, p: UiPreferences) -> Seq<GroupView> {
    if !p.group_projects_enabled {
        projects.map_values(|n: Seq<char>| (None::<Seq<char>>, seq![n]))
    } else {
        let es = group_entries(projects, p.project_groups@);
        let mode = p.project_sort_mode@;
        if mode == "alphabetical"@ || mode == "recent"@ {
            pick(es, stable_order(es.map_values(|e: GroupView| entry_key(e, p)), es.len() as int)).map_values(
                |e: GroupView| (e.0, sorted_names(e.1, p)),
            )
        } else {
            es
        }
    }
}

/// An entry of the menu as values.
pub open spec fn group_view(e: (Option<String>, Vec<String>)) -> GroupView {
    (
        match e.0 {
            Some(s) => Some(s@),
            None => None,
        },
        string_views(e.1@),
    )
}

/// The entries of the menu as values.
pub open spec fn group_views(r: Seq<(Option<String>, Vec<String>)>) -> Seq<GroupView> {
    r.map_values(|e: (Option<String>, Vec<String>)| group_view(e))
}

/// Entries held as a name and a list of projects each.
pub open spec fn entry_views(names: Seq<Option<Vec<char>>>, members: Seq<Vec<Vec<char>>>) -> Seq<GroupView> {
    Seq::new(
        names.len(),
        |i: int|
            (
                match names[i] {
                    Some(g) => Some(g@),
                    None => None::<Seq<char>>,
                },
                texts(members[i]@),
            ),
    )
}

proof fn lemma_find_group_found(es: Seq<GroupView>, g: Seq<char>, j: int)
    requires
        0 <= j < es.len(),
        es[j].0 == Some(g),
        forall|k: int| 0 <= k < j ==> es[k].0 != Some(g),
    ensures
        find_group(es, g) == Some(j),
    decreases j,
{
    if j > 0 {
        lemma_find_group_found(es.drop_first(), g, j - 1);
    }
}

proof fn lemma_find_group_missing(es: Seq<GroupView>, g: Seq<char>)
    requires
        forall|k: int| 0 <= k < es.len() ==> es[k].0 != Some(g),
    ensures
        find_group(es, g) is None,
    decreases es.len(),
{
    if es.len() > 0 {
        lemma_find_group_missing(es.drop_first(), g);
    }
}

/// Copies of character sequences.
fn copy_texts(v: &Vec<Vec<char>>) -> (r: Vec<Vec<char>>)
    ensures
        texts(r@) == texts(v@),
{
    let mut r: Vec<Vec<char>> = Vec::new();
    let mut i: usize = 0;
    while i < v.len()
        invariant
            i <= v.len(),
            texts(r@) == texts(v@.take(i as int)),
        decreases v.len() - i,
    {
        let mut c: Vec<char> = Vec::new();
        append_chars(&mut c, v[i].as_slice());
        let ghost before = r@;
        r.push(c);
        proof {
            assert(texts(r@) =~= texts(before).push(v@[i as int]@));
            assert(texts(v@.take(i + 1)) =~= texts(v@.take(i as int)).push(v@[i as int]@));
        }
        i += 1;
    }
    proof {
        assert(v@.take(v.len() as int) =~= v@);
    }
    r
}

/// The latest use of any of the projects (`recency`).
fn recency_of(members: &Vec<Vec<char>>, uses: &Vec<RecentUse>) -> (r: u64)
    ensures
        r == recency(texts(members@), uses@),
{
    let ghost ms = texts(members@);
    let mut latest: u64 = 0;
    let mut i: usize = 0;
    while i < members.len()
        invariant
            ms == texts(members@),
            i <= members.len(),
            latest == recency(ms.take(i as int), uses@),
        decreases members.len() - i,
    {
        proof {
            assert(ms.take(i + 1).drop_last() =~= ms.take(i as int));
            assert(ms.take(i + 1).last() == members@[i as int]@);
        }
        let name = string_of(members[i].as_slice());
        let u = usage_of_project(uses, name.as_str());
        if u > latest {
            latest = u;
        }
        i += 1;
    }
    proof {
        assert(ms.take(members.len() as int) =~= ms);
    }
    latest
}

/// The entries of the projects (`group_entries`), as names and projects.
fn build_group_entries(names: &Vec<Vec<char>>, groups: &Vec<crate::settings::ProjectGroup>) -> (r: (
    Vec<Option<Vec<char>>>,
    Vec<Vec<Vec<char>>>,
))
    ensures
        r.0.len() == r.1.len(),
        entry_views(r.0@, r.1@) == group_entries(texts(names@), groups@),
        forall|k: int| 0 <= k < r.1.len() ==> (#[trigger] r.1@[k]).len() > 0,
{
    let ghost ns = texts(names@);
    let mut gnames: Vec<Option<Vec<char>>> = Vec::new();
    let mut members: Vec<Vec<Vec<char>>> = Vec::new();
    let mut i: usize = 0;
    proof {
        assert(entry_views(gnames@, members@) =~= group_entries(ns.take(0), groups@));
    }
    while i < names.len()
        invariant
            ns == texts(names@),
            i <= names.len(),
            gnames.len() == members.len(),
            entry_views(gnames@, members@) == group_entries(ns.take(i as int), groups@),
            forall|k: int| 0 <= k < members.len() ==> (#[trigger] members@[k]).len() > 0,
        decreases names.len() - i,
    {
        let ghost es = entry_views(gnames@, members@);
        proof {
            assert(ns.take(i + 1).drop_last() =~= ns.take(i as int));
            assert(ns.take(i + 1).last() == names@[i as int]@);
        }
        let name = string_of(names[i].as_slice());
        let mut single: Vec<Vec<char>> = Vec::new();
        let mut copy: Vec<char> = Vec::new();
        append_chars(&mut copy, names[i].as_slice());
        single.push(copy);
        proof {
            assert(texts(single@) =~= seq![names@[i as int]@]);
        }
        match group_of_project(groups, name.as_str()) {
            Some(g) => {
                let gc = chars_of(g.as_str());
                let mut j: usize = 0;
                let mut found = false;
                while j < gnames.len()
                    invariant_except_break
                        !found,
                    invariant
                        es == entry_views(gnames@, members@),
                        j <= gnames.len(),
                        forall|k: int| 0 <= k < j ==> es[k].0 != Some(gc@),
                    ensures
                        found ==> j < gnames.len() && es[j as int].0 == Some(gc@),
                        !found ==> j == gnames.len(),
                    decreases gnames.len() - j,
                {
                    let same = match &gnames[j] {
                        Some(x) => chars_equal(x.as_slice(), gc.as_slice()),
                        None => false,
                    };
                    if same {
                        found = true;
                        break;
                    }
                    j += 1;
                }
                if found {
                    proof {
                        lemma_find_group_found(es, gc@, j as int);
                    }
                    let mut m = copy_texts(&members[j]);
                    let mut c2: Vec<char> = Vec::new();
                    append_chars(&mut c2, names[i].as_slice());
                    let ghost mbefore = m@;
                    m.push(c2);
                    proof {
                        assert(texts(m@) =~= texts(mbefore).push(names@[i as int]@));
                    }
                    members.set(j, m);
                    proof {
                        assert(entry_views(gnames@, members@) =~= es.update(
                            j as int,
                            (es[j as int].0, es[j as int].1.push(names@[i as int]@)),
                        ));
                    }
                } else {
                    proof {
                        lemma_find_group_missing(es, gc@);
                    }
                    gnames.push(Some(gc));
                    members.push(single);
                    proof {
                        assert(entry_views(gnames@, members@) =~= es.push(
                            (Some(g@), seq![names@[i as int]@]),
                        ));
                    }
                }
            },
            None => {
                gnames.push(None);
                members.push(single);
                proof {
                    assert(entry_views(gnames@, members@) =~= es.push(
                        (None::<Seq<char>>, seq![names@[i as int]@]),
                    ));
                }
            },
        }
        i += 1;
    }
    proof {
        assert(ns.take(names.len() as int) =~= ns);
    }
    (gnames, members)
}

/// The entry's name (`entry_name`).
fn entry_name_of(name: &Option<Vec<char>>, members: &Vec<Vec<char>>) -> (r: Vec<char>)
    requires
        members.len() > 0,
    ensures
        r@ == entry_name(
            (
                match name {
                    Some(g) => Some(g@),
                    None => None::<Seq<char>>,
                },
                texts(members@),
            ),
        ),
{
    let mut r: Vec<char> = Vec::new();
    match name {
        Some(g) => append_chars(&mut r, g.as_slice()),
        None => append_chars(&mut r, members[0].as_slice()),
    }
    r
}

/// The first level of the project menu (`grouped_projects`).
pub fn grouped_level_one(projects: Vec<String>, settings: &UiPreferences) -> (r: Vec<(Option<String>, Vec<String>)>)
    ensures
        group_views(r@) == grouped_projects(string_views(projects@), *settings),
{
    let names = texts_of(projects.as_slice());
    let ghost ns = texts(names@);
    let mut out: Vec<(Option<String>, Vec<String>)> = Vec::new();
    if !settings.group_projects_enabled {
        let mut i: usize = 0;
        while i < names.len()
            invariant
                ns == texts(names@),
                i <= names.len(),
                group_views(out@) == ns.take(i as int).map_values(
                    |n: Seq<char>| (None::<Seq<char>>, seq![n]),
                ),
            decreases names.len() - i,
        {
            let mut single: Vec<String> = Vec::new();
            single.push(string_of(names[i].as_slice()));
            let ghost before = out@;
            proof {
                assert(string_views(single@) =~= seq![names@[i as int]@]);
            }
            out.push((None, single));
            proof {
                assert(group_views(out@) =~= group_views(before).push(
                    (None::<Seq<char>>, seq![names@[i as int]@]),
                ));
                assert(ns.take(i + 1) =~= ns.take(i as int).push(names@[i as int]@));
                assert(ns.take(i + 1).map_values(|n: Seq<char>| (None::<Seq<char>>, seq![n])) =~= ns.take(
                    i as int,
                ).map_values(|n: Seq<char>| (None::<Seq<char>>, seq![n])).push(
                    (None::<Seq<char>>, seq![names@[i as int]@]),
                ));
            }
            i += 1;
        }
        proof {
            assert(ns.take(names.len() as int) =~= ns);
        }
        return out;
    }
    let (gnames, members) = build_group_entries(&names, &settings.project_groups);
    let ghost es = entry_views(gnames@, members@);
    let mode = settings.project_sort_mode.as_str();
    let alphabetical = text_is(mode, "alphabetical");
    let sorting = alphabetical || text_is(mode, "recent");
    let n = gnames.len();
    let mut order: Vec<usize> = Vec::new();
    if sorting {
        let mut keys: Vec<SortKey> = Vec::new();
        let mut k: usize = 0;
        while k < n
            invariant
                n == gnames.len(),
                n == members.len(),
                es == entry_views(gnames@, members@),
                forall|q: int| 0 <= q < members.len() ==> (#[trigger] members@[q]).len() > 0,
                alphabetical == (settings.project_sort_mode@ == "alphabetical"@),
                k <= n,
                keys.len() == k,
                forall|q: int|
                    0 <= q < k ==> #[trigger] key_views(keys@)[q] == entry_key(es[q], *settings),
            decreases n - k,
        {
            let name = entry_name_of(&gnames[k], &members[k]);
            proof {
                assert(es[k as int].1 == texts(members@[k as int]@));
                assert(members@[k as int].len() > 0);
            }
            let key = if alphabetical {
                let lower = lowercase(string_of(name.as_slice()).as_str());
                SortKey { rank: 0, text: chars_of(lower.as_str()) }
            } else {
                SortKey { rank: recency_of(&members[k], &settings.project_recent_usage), text: name }
            };
            let ghost before = keys@;
            keys.push(key);
            proof {
                assert forall|q: int| 0 <= q < k + 1 implies #[trigger] key_views(keys@)[q] == entry_key(
                    es[q],
                    *settings,
                ) by {
                    if q < k {
                        assert(keys@[q] == before[q]);
                        assert(key_views(before)[q] == key_views(keys@)[q]);
                    }
                }
            }
            k += 1;
        }
        proof {
            assert(key_views(keys@) =~= es.map_values(|e: GroupView| entry_key(e, *settings)));
        }
        order = stable_order_of(&keys);
    } else {
        let mut k: usize = 0;
        while k < n
            invariant
                k <= n,
                forall|q: int| 0 <= q < order.len() ==> #[trigger] order@[q] == q,
                order.len() == k,
            decreases n - k,
        {
            order.push(k);
            k += 1;
        }
    }
    let ghost o = order@.map_values(|p: usize| p as int);
    let ghost target = pick(es, o);
    proof {
        if !sorting {
            assert forall|q: int| 0 <= q < target.len() implies target[q] == es[q] by {
                assert(order@[q] == q);
            }
            assert(target =~= es);
        }
    }
    let mut j: usize = 0;
    while j < order.len()
        invariant
            es == entry_views(gnames@, members@),
            n == gnames.len(),
            n == members.len(),
            o == order@.map_values(|p: usize| p as int),
            target == pick(es, o),
            forall|q: int| 0 <= q < order.len() ==> #[trigger] order@[q] < n,
            j <= order.len(),
            group_views(out@) == if sorting {
                target.take(j as int).map_values(|e: GroupView| (e.0, sorted_names(e.1, *settings)))
            } else {
                target.take(j as int)
            },
            sorting == (settings.project_sort_mode@ == "alphabetical"@ || settings.project_sort_mode@
                == "recent"@),
        decreases order.len() - j,
    {
        let p = order[j];
        let gname: Option<String> = match &gnames[p] {
            Some(g) => Some(string_of(g.as_slice())),
            None => None,
        };
        let member_strings = strings_of(&members[p]);
        let listed = if sorting {
            sort_project_names(member_strings.as_slice(), settings)
        } else {
            member_strings
        };
        let ghost before = out@;
        let entry = (gname, listed);
        out.push(entry);
        proof {
            assert(target[j as int] == es[p as int]);
            assert(group_view(entry).0 == es[p as int].0);
            assert(string_views(member_strings@) == es[p as int].1);
            assert(group_views(out@) =~= group_views(before).push(group_view(entry)));
            assert(target.take(j + 1) =~= target.take(j as int).push(target[j as int]));
            if sorting {
                assert(target.take(j + 1).map_values(|e: GroupView| (e.0, sorted_names(e.1, *settings)))
                    =~= target.take(j as int).map_values(
                    |e: GroupView| (e.0, sorted_names(e.1, *settings)),
                ).push((es[p as int].0, sorted_names(es[p as int].1, *settings))));
            }
        }
        j += 1;
    }
    proof {
        crate::project_order::lemma_stable_order_len(
            es.map_values(|e: GroupView| entry_key(e, *settings)),
            es.len() as int,
        );
        assert(target.take(order.len() as int) =~= target);
    }
    out
}

// ---------------------------------------------------------------------------
// The tray menu
// ---------------------------------------------------------------------------

/// An entry of the tray menu, in the order the menu shows them: an item
/// with an id, a label and whether it can be chosen; a check item; a
/// separator; the start of a submenu (the entries up to its end belong to
/// it); the end of a submenu.
#[derive(Debug)]
pub enum MenuEntry {
    Item { id: String, label: String, enabled: bool },
    Check { id: String, label: String, checked: bool },
    Separator,
    Open { id: String, label: String },
    Close,
}

/// A menu entry as values.
pub enum MenuView {
    Item(Seq<char>, Seq<char>, bool),
    Check(Seq<char>, Seq<char>, bool),
    Separator,
    Open(Seq<char>, Seq<char>),
    Close,
}

/// A menu entry as values.
pub open spec fn menu_view(e: MenuEntry) -> MenuView {
    match e {
        MenuEntry::Item { id, label, enabled } => MenuView::Item(id@, label@, enabled),
        MenuEntry::Check { id, label, checked } => MenuView::Check(id@, label@, checked),
        MenuEntry::Separator => MenuView::Separator,
        MenuEntry::Open { id, label } => MenuView::Open(id@, label@),
        MenuEntry::Close => MenuView::Close,
    }
}

/// Menu entries as values.
pub open spec fn menu_views(es: Seq<MenuEntry>) -> Seq<MenuView> {
    es.map_values(|e: MenuEntry| menu_view(e))
}

/// The check item that selects a project, checked when it is the active one.
pub open spec fn project_check(p: Seq<char>, active: Seq<char>) -> MenuView {
    MenuView::Check("select::"@ + project_id_text(p), p, p == active)
}

/// The entries of one first-level entry: a group's submenu of its projects,
/// or the check item of a project on its own.
pub open spec fn group_menu(g: GroupView, active: Seq<char>) -> Seq<MenuView> {
    match g.0 {
        Some(name) => seq![MenuView::Open("group::"@ + project_id_text(name), name)] + g.1.map_values(
            |p: Seq<char>| project_check(p, active),
        ) + seq![MenuView::Close],
        None => g.1.map_values(|p: Seq<char>| project_check(p, active)),
    }
}

/// The entries of the first level of projects.
pub open spec fn project_menu(gs: Seq<GroupView>, active: Seq<char>) -> Seq<MenuView>
    decreases gs.len(),
{
    if gs.len() == 0 {
        Seq::<MenuView>::empty()
    } else {
        project_menu(gs.drop_last(), active) + group_menu(gs.last(), active)
    }
}

/// The items that remove a permanent project, by its position.
pub open spec fn remove_menu(ps: Seq<Seq<char>>) -> Seq<MenuView> {
    Seq::new(ps.len(), |i: int| MenuView::Item("remove::"@ + decimal(i as nat), ps[i], true))
}

/// The label of the comment item.
pub open spec fn comment_label(comment: Seq<char>) -> Seq<char> {
    if comment.len() == 0 {
        "Set comment..."@
    } else {
        "Comment: "@ + comment
    }
}

/// The entries before the projects.
pub open spec fn menu_head(update_available: bool, p: UiPreferences) -> Seq<MenuView> {
    (if update_available {
        seq![MenuView::Item("update_available"@, "Update available..."@, true), MenuView::Separator]
    } else {
        Seq::<MenuView>::empty()
    }) + seq![
        MenuView::Item("open_quickpanel"@, "Open ProjectLog QuickPanel"@, true),
        MenuView::Open("panel_mode"@, "QuickPanel mode"@),
        MenuView::Check("qp_mode::normal"@, "Normal"@, p.quickpanel_mode@ == "normal"@),
        MenuView::Check("qp_mode::compact"@, "Compact"@, p.quickpanel_mode@ == "compact"@),
        MenuView::Close,
        MenuView::Separator,
    ]
}

/// The entries between the projects and the remove submenu's items.
pub open spec fn menu_middle(active: Seq<char>, comment: Seq<char>) -> Seq<MenuView> {
    seq![
        MenuView::Separator,
        MenuView::Item("set_comment"@, comment_label(comment), active.len() > 0),
        MenuView::Separator,
        MenuView::Item("add_project"@, "Add project..."@, true),
        MenuView::Item("quick_project"@, "Quick project..."@, true),
        MenuView::Open("remove_menu"@, "Remove project"@),
    ]
}

/// The entries after the remove submenu's items.
pub open spec fn menu_tail() -> Seq<MenuView> {
    seq![
        MenuView::Close,
        MenuView::Separator,
        MenuView::Open("timesheet_menu"@, "Generate timesheet"@),
        MenuView::Item("generate_sheet::all"@, "Full timesheet"@, true),
        MenuView::Item("generate_sheet::recent"@, "Yesterday + today"@, true),
        MenuView::Close,
        MenuView::Item("open_log"@, "Open log file"@, true),
        MenuView::Item("reset_sheet"@, "Reset timesheet"@, true),
        MenuView::Item("reset_projects"@, "Reset projects"@, true),
        MenuView::Item("open_diagnostic_log"@, "Open diagnostic log"@, true),
        MenuView::Separator,
        MenuView::Item("feedback_github"@, "Report an issue..."@, true),
        MenuView::Separator,
        MenuView::Item("about"@, "About"@, true),
        MenuView::Item("exit"@, "Exit"@, true),
    ]
}

/// The tray menu: the update notice when there is one, the quick panel and
/// its modes, the projects (permanent then ad-hoc, each list sorted, then
/// grouped), the comment, adding, quick and removing projects (the sorted
/// permanent ones, by position), the timesheet and the rest.
pub open spec fn tray_menu(
    projects: Seq<Seq<char>>,
    adhoc: Seq<Seq<char>>,
    active: Seq<char>,
    comment: Seq<char>,
    update_available: bool,
    p: UiPreferences,
) -> Seq<MenuView> {
    let sorted = sorted_names(projects, p);
    let sorted_adhoc = sorted_names(adhoc, p);
    menu_head(update_available, p) + project_menu(grouped_projects(sorted + sorted_adhoc, p), active)
        + menu_middle(active, comment) + remove_menu(sorted) + menu_tail()
}

fn push_item(out: &mut Vec<MenuEntry>, id: &str, label: &str, enabled: bool)
    ensures
        menu_views(final(out)@) == menu_views(old(out)@).push(MenuView::Item(id@, label@, enabled)),
{
    let ghost before = menu_views(out@);
    out.push(MenuEntry::Item { id: id.to_string(), label: label.to_string(), enabled });
    proof {
        assert(menu_views(out@) =~= before.push(MenuView::Item(id@, label@, enabled)));
    }
}

fn push_check(out: &mut Vec<MenuEntry>, id: &str, label: &str, checked: bool)
    ensures
        menu_views(final(out)@) == menu_views(old(out)@).push(MenuView::Check(id@, label@, checked)),
{
    let ghost before = menu_views(out@);
    out.push(MenuEntry::Check { id: id.to_string(), label: label.to_string(), checked });
    proof {
        assert(menu_views(out@) =~= before.push(MenuView::Check(id@, label@, checked)));
    }
}

fn push_open(out: &mut Vec<MenuEntry>, id: &str, label: &str)
    ensures
        menu_views(final(out)@) == menu_views(old(out)@).push(MenuView::Open(id@, label@)),
{
    let ghost before = menu_views(out@);
    out.push(MenuEntry::Open { id: id.to_string(), label: label.to_string() });
    proof {
        assert(menu_views(out@) =~= before.push(MenuView::Open(id@, label@)));
    }
}

fn push_plain(out: &mut Vec<MenuEntry>, separator: bool)
    ensures
        menu_views(final(out)@) == menu_views(old(out)@).push(
            if separator {
                MenuView::Separator
            } else {
                MenuView::Close
            },
        ),
{
    let ghost before = menu_views(out@);
    if separator {
        out.push(MenuEntry::Separator);
    } else {
        out.push(MenuEntry::Close);
    }
    proof {
        assert(menu_views(out@) =~= before.push(
            if separator {
                MenuView::Separator
            } else {
                MenuView::Close
            },
        ));
    }
}

/// `prefix` followed by `id`.
fn prefixed(prefix: &str, id: &str) -> (r: String)
    ensures
        r@ == prefix@ + id@,
{
    let mut cs = chars_of(prefix);
    append_chars(&mut cs, chars_of(id).as_slice());
    string_of(cs.as_slice())
}

/// Appends the check item of a project (`project_check`).
fn push_project_check(out: &mut Vec<MenuEntry>, project: &str, active: &str)
    ensures
        menu_views(final(out)@) == menu_views(old(out)@).push(project_check(project@, active@)),
{
    let id = prefixed("select::", project_id(project).as_str());
    push_check(out, id.as_str(), project, text_is(project, active));
}

/// Appends the check items of the projects.
fn push_project_checks(out: &mut Vec<MenuEntry>, members: &Vec<String>, active: &str)
    ensures
        menu_views(final(out)@) == menu_views(old(out)@) + string_views(members@).map_values(
            |p: Seq<char>| project_check(p, active@),
        ),
{
    let ghost start = menu_views(out@);
    let mut j: usize = 0;
    while j < members.len()
        invariant
            j <= members.len(),
            menu_views(out@) == start + string_views(members@).take(j as int).map_values(
                |p: Seq<char>| project_check(p, active@),
            ),
        decreases members.len() - j,
    {
        push_project_check(out, members[j].as_str(), active);
        proof {
            assert(string_views(members@).take(j + 1) =~= string_views(members@).take(j as int).push(
                members@[j as int]@,
            ));
            assert(menu_views(out@) =~= start + string_views(members@).take(j + 1).map_values(
                |p: Seq<char>| project_check(p, active@),
            ));
        }
        j += 1;
    }
    proof {
        assert(string_views(members@).take(members.len() as int) =~= string_views(members@));
    }
}

/// Appends the entries of the first level of projects (`project_menu`).
fn push_project_menu(out: &mut Vec<MenuEntry>, entries: &Vec<(Option<String>, Vec<String>)>, active: &str)
    ensures
        menu_views(final(out)@) == menu_views(old(out)@) + project_menu(group_views(entries@), active@),
{
    let ghost gs = group_views(entries@);
    let ghost start = menu_views(out@);
    let mut g: usize = 0;
    proof {
        assert(gs.take(0) =~= Seq::<GroupView>::empty());
        assert(menu_views(out@) =~= start + project_menu(gs.take(0), active@));
    }
    while g < entries.len()
        invariant
            gs == group_views(entries@),
            g <= entries.len(),
            menu_views(out@) == start + project_menu(gs.take(g as int), active@),
        decreases entries.len() - g,
    {
        let ghost before = menu_views(out@);
        proof {
            assert(gs.take(g + 1).drop_last() =~= gs.take(g as int));
            assert(gs.take(g + 1).last() == gs[g as int]);
            assert(gs[g as int] == group_view(entries@[g as int]));
        }
        match &entries[g].0 {
            Some(name) => {
                let id = prefixed("group::", project_id(name.as_str()).as_str());
                push_open(out, id.as_str(), name.as_str());
                push_project_checks(out, &entries[g].1, active);
                push_plain(out, false);
            },
            None => {
                push_project_checks(out, &entries[g].1, active);
            },
        }
        proof {
            assert(menu_views(out@) =~= before + group_menu(gs[g as int], active@));
        }
        g += 1;
    }
    proof {
        assert(gs.take(entries.len() as int) =~= gs);
    }
}

/// Appends the items that remove the permanent projects (`remove_menu`).
fn push_remove_menu(out: &mut Vec<MenuEntry>, projects: &Vec<String>)
    ensures
        menu_views(final(out)@) == menu_views(old(out)@) + remove_menu(string_views(projects@)),
{
    let ghost start = menu_views(out@);
    let ghost sorted = string_views(projects@);
    let mut idx: usize = 0;
    proof {
        assert(remove_menu(sorted.take(0)) =~= Seq::<MenuView>::empty());
        assert(menu_views(out@) =~= start + remove_menu(sorted.take(0)));
    }
    while idx < projects.len()
        invariant
            sorted == string_views(projects@),
            idx <= projects.len(),
            menu_views(out@) == start + remove_menu(sorted.take(idx as int)),
        decreases projects.len() - idx,
    {
        let mut digits: Vec<char> = Vec::new();
        push_decimal(&mut digits, idx as u64);
        let id = prefixed("remove::", string_of(digits.as_slice()).as_str());
        push_item(out, id.as_str(), projects[idx].as_str(), true);
        proof {
            assert(remove_menu(sorted.take(idx + 1)) =~= remove_menu(sorted.take(idx as int)).push(
                MenuView::Item("remove::"@ + decimal(idx as nat), sorted[idx as int], true),
            ));
            assert(menu_views(out@) =~= start + remove_menu(sorted.take(idx + 1)));
        }
        idx += 1;
    }
    proof {
        assert(sorted.take(projects.len() as int) =~= sorted);
    }
}

/// The strings of `a` followed by those of `b`.
fn chained(a: &Vec<String>, b: &Vec<String>) -> (r: Vec<String>)
    ensures
        string_views(r@) == string_views(a@) + string_views(b@),
{
    let ta = texts_of(a.as_slice());
    let tb = texts_of(b.as_slice());
    let mut all: Vec<Vec<char>> = copy_texts(&ta);
    let mut k: usize = 0;
    let ghost first = texts(all@);
    while k < tb.len()
        invariant
            k <= tb.len(),
            texts(all@) == first + texts(tb@).take(k as int),
        decreases tb.len() - k,
    {
        let mut c: Vec<char> = Vec::new();
        append_chars(&mut c, tb[k].as_slice());
        let ghost before = texts(all@);
        all.push(c);
        proof {
            assert(texts(all@) =~= before.push(tb@[k as int]@));
            assert(texts(tb@).take(k + 1) =~= texts(tb@).take(k as int).push(tb@[k as int]@));
            assert(texts(all@) =~= first + texts(tb@).take(k + 1));
        }
        k += 1;
    }
    proof {
        assert(texts(tb@).take(tb.len() as int) =~= texts(tb@));
    }
    strings_of(&all)
}

/// Appends the entries before the projects (`menu_head`).
fn push_menu_head(out: &mut Vec<MenuEntry>, update_available: bool, settings: &UiPreferences)
    ensures
        menu_views(final(out)@) == menu_views(old(out)@) + menu_head(update_available, *settings),
{
    let ghost start = menu_views(out@);
    if update_available {
        push_item(out, "update_available", "Update available...", true);
        push_plain(out, true);
    }
    push_item(out, "open_quickpanel", "Open ProjectLog QuickPanel", true);
    push_open(out, "panel_mode", "QuickPanel mode");
    push_check(out, "qp_mode::normal", "Normal", text_is(settings.quickpanel_mode.as_str(), "normal"));
    push_check(out, "qp_mode::compact", "Compact", text_is(settings.quickpanel_mode.as_str(), "compact"));
    push_plain(out, false);
    push_plain(out, true);
    proof {
        assert(menu_views(out@) =~= start + menu_head(update_available, *settings));
    }
}

/// Appends the entries between the projects and the remove items
/// (`menu_middle`).
fn push_menu_middle(out: &mut Vec<MenuEntry>, active: &str, comment: &str)
    ensures
        menu_views(final(out)@) == menu_views(old(out)@) + menu_middle(active@, comment@),
{
    let ghost start = menu_views(out@);
    push_plain(out, true);
    let label = if comment.is_empty() {
        "Set comment...".to_string()
    } else {
        prefixed("Comment: ", comment)
    };
    push_item(out, "set_comment", label.as_str(), !active.is_empty());
    push_plain(out, true);
    push_item(out, "add_project", "Add project...", true);
    push_item(out, "quick_project", "Quick project...", true);
    push_open(out, "remove_menu", "Remove project");
    proof {
        assert(menu_views(out@) =~= start + menu_middle(active@, comment@));
    }
}

/// Appends the entries after the remove items (`menu_tail`).
fn push_menu_tail(out: &mut Vec<MenuEntry>)
    ensures
        menu_views(final(out)@) == menu_views(old(out)@) + menu_tail(),
{
    let ghost start = menu_views(out@);
    push_plain(out, false);
    push_plain(out, true);
    push_open(out, "timesheet_menu", "Generate timesheet");
    push_item(out, "generate_sheet::all", "Full timesheet", true);
    push_item(out, "generate_sheet::recent", "Yesterday + today", true);
    push_plain(out, false);
    push_item(out, "open_log", "Open log file", true);
    push_item(out, "reset_sheet", "Reset timesheet", true);
    push_item(out, "reset_projects", "Reset projects", true);
    push_item(out, "open_diagnostic_log", "Open diagnostic log", true);
    push_plain(out, true);
    push_item(out, "feedback_github", "Report an issue...", true);
    push_plain(out, true);
    push_item(out, "about", "About", true);
    push_item(out, "exit", "Exit", true);
    proof {
        assert(menu_views(out@) =~= start + menu_tail());
    }
}

/// The tray menu for the session (`tray_menu`).
pub fn build_menu(
    projects_list: &[String],
    adhoc_list: &[String],
    active: &str,
    comment: &str,
    update_available: bool,
    settings: &UiPreferences,
) -> (r: Vec<MenuEntry>)
    ensures
        menu_views(r@) == tray_menu(
            string_views(projects_list@),
            string_views(adhoc_list@),
            active@,
            comment@,
            update_available,
            *settings,
        ),
{
    let (sorted_projects, sorted_adhoc) = sorted_project_lists(projects_list, adhoc_list, settings);
    let mut out: Vec<MenuEntry> = Vec::new();
    push_menu_head(&mut out, update_available, settings);
    let ghost a = menu_views(out@);
    let all = chained(&sorted_projects, &sorted_adhoc);
    let entries = grouped_level_one(all, settings);
    push_project_menu(&mut out, &entries, active);
    let ghost b = menu_views(out@);
    push_menu_middle(&mut out, active, comment);
    let ghost c = menu_views(out@);
    push_remove_menu(&mut out, &sorted_projects);
    let ghost d = menu_views(out@);
    push_menu_tail(&mut out);
    proof {
        assert(a =~= Seq::<MenuView>::empty() + menu_head(update_available, *settings));
        assert(menu_views(out@) =~= menu_head(update_available, *settings) + project_menu(
            group_views(entries@),
            active@,
        ) + menu_middle(active@, comment@) + remove_menu(string_views(sorted_projects@)) + menu_tail());
    }
    out
}

// ---------------------------------------------------------------------------
// Menu events
// ---------------------------------------------------------------------------

/// Whether `s` starts with `prefix`.
pub open spec fn starts_with(s: Seq<char>, prefix: Seq<char>) -> bool {
    prefix.len() <= s.len() && s.take(prefix.len() as int) == prefix
}

/// What a chosen menu item asks for.
#[derive(Debug, PartialEq, Eq)]
pub enum MenuCommand {
    /// Select the project of a `select::` id; the id's rest.
    Select(String),
    /// Remove the project of a `remove::` id; the id's rest.
    Remove(String),
    /// Open a timesheet preview; the rest of a `generate_sheet::` id.
    Generate(String),
    /// Change the quick panel mode; the rest of a `qp_mode::` id.
    QuickpanelMode(String),
    SetComment,
    AddProject,
    QuickProject,
    OpenQuickpanel,
    UpdateAvailable,
    ResetSheet,
    ResetProjects,
    OpenLog,
    OpenDiagnosticLog,
    FeedbackEmail,
    FeedbackGithub,
    About,
    Exit,
    /// An id the menu does not know.
    Unknown,
}

/// A menu command as values.
pub enum CommandView {
    Select(Seq<char>),
    Remove(Seq<char>),
    Generate(Seq<char>),
    QuickpanelMode(Seq<char>),
    Named(Seq<char>),
    Unknown,
}

/// A menu command as values; the commands without a rest by their ids.
pub open spec fn command_view(c: MenuCommand) -> CommandView {
    match c {
        MenuCommand::Select(s) => CommandView::Select(s@),
        MenuCommand::Remove(s) => CommandView::Remove(s@),
        MenuCommand::Generate(s) => CommandView::Generate(s@),
        MenuCommand::QuickpanelMode(s) => CommandView::QuickpanelMode(s@),
        MenuCommand::SetComment => CommandView::Named("set_comment"@),
        MenuCommand::AddProject => CommandView::Named("add_project"@),
        MenuCommand::QuickProject => CommandView::Named("quick_project"@),
        MenuCommand::OpenQuickpanel => CommandView::Named("open_quickpanel"@),
        MenuCommand::UpdateAvailable => CommandView::Named("update_available"@),
        MenuCommand::ResetSheet => CommandView::Named("reset_sheet"@),
        MenuCommand::ResetProjects => CommandView::Named("reset_projects"@),
        MenuCommand::OpenLog => CommandView::Named("open_log"@),
        MenuCommand::OpenDiagnosticLog => CommandView::Named("open_diagnostic_log"@),
        MenuCommand::FeedbackEmail => CommandView::Named("feedback_email"@),
        MenuCommand::FeedbackGithub => CommandView::Named("feedback_github"@),
        MenuCommand::About => CommandView::Named("about"@),
        MenuCommand::Exit => CommandView::Named("exit"@),
        MenuCommand::Unknown => CommandView::Unknown,
    }
}

/// The ids of the menu items without a rest.
pub open spec fn is_named_command(id: Seq<char>) -> bool {
    ||| id == "set_comment"@
    ||| id == "add_project"@
    ||| id == "quick_project"@
    ||| id == "open_quickpanel"@
    ||| id == "update_available"@
    ||| id == "reset_sheet"@
    ||| id == "reset_projects"@
    ||| id == "open_log"@
    ||| id == "open_diagnostic_log"@
    ||| id == "feedback_email"@
    ||| id == "feedback_github"@
    ||| id == "about"@
    ||| id == "exit"@
}

/// What the menu item `id` asks for: the prefixes `select::`, `remove::`,
/// `generate_sheet::` and `qp_mode::` in that order with the id's rest, else
/// the item of that id, else nothing known.
pub open spec fn menu_command_of(id: Seq<char>) -> CommandView {
    if starts_with(id, "select::"@) {
        CommandView::Select(id.skip(8))
    } else if starts_with(id, "remove::"@) {
        CommandView::Remove(id.skip(8))
    } else if starts_with(id, "generate_sheet::"@) {
        CommandView::Generate(id.skip(16))
    } else if starts_with(id, "qp_mode::"@) {
        CommandView::QuickpanelMode(id.skip(9))
    } else if is_named_command(id) {
        CommandView::Named(id)
    } else {
        CommandView::Unknown
    }
}

/// The rest of `s` after `prefix`, if it starts with it.
fn strip_prefix_of(s: &str, prefix: &str) -> (r: Option<String>)
    ensures
        match r {
            Some(rest) => starts_with(s@, prefix@) && rest@ == s@.skip(prefix@.len() as int),
            None => !starts_with(s@, prefix@),
        },
{
    let cs = chars_of(s);
    let ps = chars_of(prefix);
    if ps.len() > cs.len() {
        return None;
    }
    let mut i: usize = 0;
    while i < ps.len()
        invariant
            cs@ == s@,
            ps@ == prefix@,
            ps.len() <= cs.len(),
            i <= ps.len(),
            forall|k: int| 0 <= k < i ==> cs@[k] == ps@[k],
        decreases ps.len() - i,
    {
        if cs[i] != ps[i] {
            proof {
                assert(cs@.take(ps.len() as int)[i as int] != ps@[i as int]);
                assert(!(cs@.take(ps.len() as int) =~= ps@));
            }
            return None;
        }
        i += 1;
    }
    proof {
        assert(cs@.take(ps.len() as int) =~= ps@);
    }
    let mut rest: Vec<char> = Vec::new();
    let mut j: usize = ps.len();
    while j < cs.len()
        invariant
            ps.len() <= j <= cs.len(),
            rest@ == cs@.subrange(ps.len() as int, j as int),
        decreases cs.len() - j,
    {
        rest.push(cs[j]);
        proof {
            assert(cs@.subrange(ps.len() as int, j + 1) =~= cs@.subrange(ps.len() as int, j as int).push(
                cs@[j as int],
            ));
        }
        j += 1;
    }
    proof {
        assert(cs@.skip(ps.len() as int) =~= cs@.subrange(ps.len() as int, cs.len() as int));
    }
    Some(string_of(rest.as_slice()))
}

/// What the menu item `id` asks for (`menu_command_of`).
pub fn menu_command(id: &str) -> (r: MenuCommand)
    ensures
        command_view(r) == menu_command_of(id@),
{
    proof {
        reveal_strlit("select::");
        reveal_strlit("remove::");
        reveal_strlit("generate_sheet::");
        reveal_strlit("qp_mode::");
    }
    if let Some(rest) = strip_prefix_of(id, "select::") {
        return MenuCommand::Select(rest);
    }
    if let Some(rest) = strip_prefix_of(id, "remove::") {
        return MenuCommand::Remove(rest);
    }
    if let Some(rest) = strip_prefix_of(id, "generate_sheet::") {
        return MenuCommand::Generate(rest);
    }
    if let Some(rest) = strip_prefix_of(id, "qp_mode::") {
        return MenuCommand::QuickpanelMode(rest);
    }
    if text_is(id, "set_comment") {
        MenuCommand::SetComment
    } else if text_is(id, "add_project") {
        MenuCommand::AddProject
    } else if text_is(id, "quick_project") {
        MenuCommand::QuickProject
    } else if text_is(id, "open_quickpanel") {
        MenuCommand::OpenQuickpanel
    } else if text_is(id, "update_available") {
        MenuCommand::UpdateAvailable
    } else if text_is(id, "reset_sheet") {
        MenuCommand::ResetSheet
    } else if text_is(id, "reset_projects") {
        MenuCommand::ResetProjects
    } else if text_is(id, "open_log") {
        MenuCommand::OpenLog
    } else if text_is(id, "open_diagnostic_log") {
        MenuCommand::OpenDiagnosticLog
    } else if text_is(id, "feedback_email") {
        MenuCommand::FeedbackEmail
    } else if text_is(id, "feedback_github") {
        MenuCommand::FeedbackGithub
    } else if text_is(id, "about") {
        MenuCommand::About
    } else if text_is(id, "exit") {
        MenuCommand::Exit
    } else {
        MenuCommand::Unknown
    }
}

/// The timesheet range and format a `generate_sheet::` rest asks for:
/// `all` the full timesheet, `recent` yesterday and today.
pub fn generate_request(mode: &str) -> (r: Option<(String, String)>)
    ensures
        mode@ == "all"@ ==> (r matches Some((range, format)) && range@ == "all"@ && format@ == "full"@),
        mode@ == "recent"@ ==> (r matches Some((range, format)) && range@ == "today"@ && format@
            == "recent"@),
        mode@ != "all"@ && mode@ != "recent"@ ==> r is None,
{
    proof {
        reveal_strlit("all");
        reveal_strlit("recent");
    }
    if text_is(mode, "all") {
        Some(("all".to_string(), "full".to_string()))
    } else if text_is(mode, "recent") {
        Some(("today".to_string(), "recent".to_string()))
    } else {
        None
    }
}

// ---------------------------------------------------------------------------
// Positions in menu ids
// ---------------------------------------------------------------------------

/// The number a run of decimal digits stands for.
pub open spec fn digits_value(d: Seq<char>) -> int
    decreases d.len(),
{
    if d.len() == 0 {
        0
    } else {
        digits_value(d.drop_last()) * 10 + (d.last() as int - 48)
    }
}

/// Whether a character is a decimal digit.
pub open spec fn is_digit(c: char) -> bool {
    '0' <= c <= '9'
}

/// The position a text stands for as `str::parse::<usize>` reads it: an
/// optional `+`, then one or more decimal digits, at most `usize::MAX`.
pub open spec fn parsed_index(s: Seq<char>) -> Option<int> {
    let d = index_digits(s);
    if d.len() > 0 && all_digits(d) && digits_value(d) <= usize::MAX {
        Some(digits_value(d))
    } else {
        None
    }
}

/// The digits of a position: the text without a leading `+`.
pub open spec fn index_digits(s: Seq<char>) -> Seq<char> {
    if s.len() > 0 && s[0] == '+' {
        s.drop_first()
    } else {
        s
    }
}

/// Whether every character is a decimal digit.
pub open spec fn all_digits(d: Seq<char>) -> bool {
    forall|i: int| 0 <= i < d.len() ==> is_digit(#[trigger] d[i])
}

proof fn lemma_digits_value_grows(d: Seq<char>, k: int)
    requires
        0 <= k <= d.len(),
        forall|i: int| 0 <= i < d.len() ==> is_digit(#[trigger] d[i]),
    ensures
        0 <= digits_value(d.take(k)) <= digits_value(d),
    decreases d.len(),
{
    if k == d.len() {
        assert(d.take(k) =~= d);
        if d.len() > 0 {
            lemma_digits_value_grows(d.drop_last(), d.len() - 1);
            assert(d.drop_last().take(d.len() - 1) =~= d.drop_last());
        }
    } else {
        assert(d.take(k) =~= d.drop_last().take(k));
        lemma_digits_value_grows(d.drop_last(), k);
        assert(is_digit(d.last()));
    }
}

/// The position a text stands for (`parsed_index`).
pub fn parse_index(text: &str) -> (r: Option<usize>)
    ensures
        match r {
            Some(v) => parsed_index(text@) == Some(v as int),
            None => parsed_index(text@) is None,
        },
{
    let cs = chars_of(text);
    let start: usize = if cs.len() > 0 && cs[0] == '+' {
        1
    } else {
        0
    };
    let ghost d = index_digits(text@);
    proof {
        assert(d =~= cs@.skip(start as int));
    }
    if start >= cs.len() {
        return None;
    }
    let mut value: u128 = 0;
    let mut i: usize = start;
    while i < cs.len()
        invariant
            cs@ == text@,
            d == index_digits(text@),
            d == cs@.skip(start as int),
            start < cs.len(),
            start <= i <= cs.len(),
            forall|k: int| 0 <= k < i - start ==> is_digit(#[trigger] d[k]),
            value == digits_value(d.take(i - start)),
            value <= usize::MAX,
        decreases cs.len() - i,
    {
        let c = cs[i];
        proof {
            assert(d[i - start] == c);
        }
        if c < '0' || c > '9' {
            proof {
                assert(!is_digit(d[i - start]));
            }
            return None;
        }
        let digit = (c as u32 - '0' as u32) as u128;
        proof {
            assert(d.take(i - start + 1).drop_last() =~= d.take(i - start));
            assert(d.take(i - start + 1).last() == c);
        }
        value = value * 10 + digit;
        proof {
            assert(value == digits_value(d.take(i - start + 1)));
        }
        if value > usize::MAX as u128 {
            proof {
                if all_digits(d) {
                    lemma_digits_value_grows(d, i - start + 1);
                }
            }
            return None;
        }
        i += 1;
    }
    proof {
        assert(d.take(cs.len() - start) =~= d);
    }
    Some(value as usize)
}

/// The permanent project at the position a `remove::` rest names, in the
/// order of the menu (`sorted_names`); `None` when the rest is no position
/// or none is there.
pub fn project_from_remove_id(id: &str, projects: &[String], settings: &UiPreferences) -> (r: Option<String>)
    ensures
        match parsed_index(id@) {
            Some(i) => {
                let sorted = sorted_names(string_views(projects@), *settings);
                if i < sorted.len() {
                    r matches Some(p) && p@ == sorted[i]
                } else {
                    r is None
                }
            },
            None => r is None,
        },
{
    let idx = match parse_index(id) {
        Some(i) => i,
        None => {
            return None;
        },
    };
    let sorted = sort_project_names(projects, settings);
    if idx < sorted.len() {
        proof {
            assert(string_views(sorted@)[idx as int] == sorted@[idx as int]@);
        }
        Some(sorted[idx].as_str().to_string())
    } else {
        None
    }
}

/// The project a `select::` rest names (`project_from_id`).
pub fn project_from_select_id(id: &str) -> (r: Option<String>)
    ensures
        match r {
            Some(s) => project_name_from_id(id@) == Some(s@),
            None => project_name_from_id(id@) is None,
        },
{
    project_from_id(id)
}

/// Whether `::` stands at position `i` of `s`.
pub open spec fn separator_at(s: Seq<char>, i: int) -> bool {
    0 <= i && i + 1 < s.len() && s[i] == ':' && s[i + 1] == ':'
}

/// The position of the first `::` in `s`.
pub open spec fn first_separator(s: Seq<char>) -> Option<int> {
    if exists|i: int| #[trigger] separator_at(s, i) {
        Some(
            choose|i: int|
                #[trigger] separator_at(s, i) && forall|k: int| 0 <= k < i ==> !#[trigger] separator_at(s, k),
        )
    } else {
        None
    }
}

/// The project an id of the form `kind::position` names: the permanent
/// project (`project`) or the ad-hoc one (`adhoc`) at that position in the
/// order of the menu (`sorted_names`); `None` when the id has another form
/// or there is none.
pub open spec fn project_of_indexed_id(
    id: Seq<char>,
    projects: Seq<Seq<char>>,
    adhoc: Seq<Seq<char>>,
    p: UiPreferences,
) -> Option<Seq<char>> {
    match first_separator(id) {
        None => None,
        Some(i) => {
            let kind = id.take(i);
            match parsed_index(id.skip(i + 2)) {
                None => None,
                Some(n) => {
                    let list = if kind == "project"@ {
                        Some(sorted_names(projects, p))
                    } else if kind == "adhoc"@ {
                        Some(sorted_names(adhoc, p))
                    } else {
                        None::<Seq<Seq<char>>>
                    };
                    match list {
                        Some(l) => if n < l.len() {
                            Some(l[n])
                        } else {
                            None
                        },
                        None => None,
                    }
                },
            }
        },
    }
}

proof fn lemma_append_new_from(acc: Seq<Seq<char>>, items: Seq<Seq<char>>, k: int)
    requires
        0 <= k < append_new(acc, items).len(),
    ensures
        acc.contains(append_new(acc, items)[k]) || items.contains(append_new(acc, items)[k]),
    decreases items.len(),
{
    if items.len() > 0 {
        let a = append_new(acc, items.drop_last());
        if k < a.len() {
            lemma_append_new_from(acc, items.drop_last(), k);
            if items.drop_last().contains(a[k]) {
                let w = choose|w: int| 0 <= w < items.drop_last().len() && items.drop_last()[w] == a[k];
                assert(items[w] == a[k]);
            }
        } else {
            assert(append_new(acc, items)[k] == items[items.len() - 1]);
        }
    }
}

/// Every name of an ordered list is a name of the list: the orders of the
/// menu only arrange the names they are given.
pub proof fn lemma_sorted_names_from(items: Seq<Seq<char>>, p: UiPreferences, k: int)
    requires
        0 <= k < sorted_names(items, p).len(),
    ensures
        items.contains(sorted_names(items, p)[k]),
{
    let mode = p.project_sort_mode@;
    if mode == "alphabetical"@ || mode == "recent"@ {
        lemma_sorted_names_sort(items, p);
        let keys = if p.project_sort_mode@ == "alphabetical"@ {
            alphabetical_keys(items)
        } else {
            recent_keys(items, p.project_recent_usage@)
        };
        let o = choose|o: Seq<int>|
            {
                &&& crate::project_order::lists_each_once(o, items.len() as int)
                &&& crate::project_order::sorted_stably(o, keys)
                &&& #[trigger] pick(items, o) == sorted_names(items, p)
            };
        assert(sorted_names(items, p)[k] == items[o[k]]);
    } else {
        let order = string_views(p.project_manual_order@);
        let f = |n: Seq<char>| items.contains(n);
        let acc = order.filter(f);
        lemma_append_new_from(acc, items, k);
        let x = sorted_names(items, p)[k];
        if acc.contains(x) {
            let w = choose|w: int| 0 <= w < acc.len() && acc[w] == x;
            order.lemma_filter_pred(f, w);
        }
    }
}

/// A `project::n` id names a project of the permanent list and an
/// `adhoc::n` id one of the ad-hoc list, never one of the other list that
/// is not also in its own.
pub proof fn lemma_indexed_id_names_its_list(
    id: Seq<char>,
    projects: Seq<Seq<char>>,
    adhoc: Seq<Seq<char>>,
    p: UiPreferences,
)
    ensures
        project_of_indexed_id(id, projects, adhoc, p) matches Some(x) ==> {
            let i = first_separator(id)->0;
            &&& first_separator(id) is Some
            &&& id.take(i) == "project"@ ==> projects.contains(x)
            &&& id.take(i) == "adhoc"@ ==> adhoc.contains(x)
        },
{
    if let Some(x) = project_of_indexed_id(id, projects, adhoc, p) {
        reveal_strlit("project");
        reveal_strlit("adhoc");
        assert("project"@.len() != "adhoc"@.len());
        assert(first_separator(id) is Some);
        let i = first_separator(id)->0;
        assert(parsed_index(id.skip(i + 2)) is Some);
        let n = parsed_index(id.skip(i + 2))->0;
        let d = index_digits(id.skip(i + 2));
        lemma_digits_value_grows(d, d.len() as int);
        assert(n >= 0);
        if id.take(i) == "project"@ {
            assert(n < sorted_names(projects, p).len());
            assert(x == sorted_names(projects, p)[n as int]);
            lemma_sorted_names_from(projects, p, n as int);
        } else if id.take(i) == "adhoc"@ {
            assert(n < sorted_names(adhoc, p).len());
            assert(x == sorted_names(adhoc, p)[n as int]);
            lemma_sorted_names_from(adhoc, p, n as int);
        }
    }
}

/// The position of the first `::` in a text (`first_separator`).
fn find_separator(id: &str) -> (r: Option<usize>)
    ensures
        match r {
            Some(i) => first_separator(id@) == Some(i as int) && i + 1 < id@.len(),
            None => first_separator(id@) is None,
        },
{
    let cs = chars_of(id);
    let mut i: usize = 0;
    while i < cs.len()
        invariant
            cs@ == id@,
            i <= cs.len(),
            forall|k: int| 0 <= k < i ==> !#[trigger] separator_at(id@, k),
        decreases cs.len() - i,
    {
        if i + 1 < cs.len() && cs[i] == ':' && cs[i + 1] == ':' {
            proof {
                assert(separator_at(id@, i as int));
                let c = choose|c: int|
                    #[trigger] separator_at(id@, c) && forall|k: int| 0 <= k < c ==> !#[trigger] separator_at(id@, k);
                assert(separator_at(id@, c));
                if c < i {
                    assert(!separator_at(id@, c));
                } else if c > i {
                    assert(!separator_at(id@, i as int));
                }
            }
            return Some(i);
        }
        proof {
            assert(!separator_at(id@, i as int));
        }
        i += 1;
    }
    proof {
        if exists|j: int| #[trigger] separator_at(id@, j) {
            let j = choose|j: int| #[trigger] separator_at(id@, j);
            assert(j < i);
        }
    }
    None
}

/// The characters of `cs` from position `a` up to `b`.
fn chars_between(cs: &Vec<char>, a: usize, b: usize) -> (r: Vec<char>)
    requires
        a <= b <= cs.len(),
    ensures
        r@ == cs@.subrange(a as int, b as int),
{
    let mut out: Vec<char> = Vec::new();
    let mut j: usize = a;
    while j < b
        invariant
            a <= j <= b <= cs.len(),
            out@ == cs@.subrange(a as int, j as int),
        decreases b - j,
    {
        out.push(cs[j]);
        proof {
            assert(cs@.subrange(a as int, j + 1) =~= cs@.subrange(a as int, j as int).push(cs@[j as int]));
        }
        j += 1;
    }
    out
}

/// The project at position `n` of a list in the order of the menu.
fn sorted_project_at(list: &[String], n: usize, settings: &UiPreferences) -> (r: Option<String>)
    ensures
        ({
            let l = sorted_names(string_views(list@), *settings);
            if n < l.len() {
                r matches Some(s) && s@ == l[n as int]
            } else {
                r is None
            }
        }),
{
    let sorted = sort_project_names(list, settings);
    if n < sorted.len() {
        proof {
            assert(string_views(sorted@)[n as int] == sorted@[n as int]@);
        }
        Some(sorted[n].as_str().to_string())
    } else {
        None
    }
}

/// The project an id of the form `kind::position` names
/// (`project_of_indexed_id`).
pub fn project_from_indexed_id(id: &str, projects: &[String], adhoc: &[String], settings: &UiPreferences) -> (r:
    Option<String>)
    ensures
        match r {
            Some(s) => project_of_indexed_id(id@, string_views(projects@), string_views(adhoc@), *settings)
                == Some(s@),
            None => project_of_indexed_id(id@, string_views(projects@), string_views(adhoc@), *settings) is None,
        },
{
    let i = match find_separator(id) {
        Some(i) => i,
        None => {
            return None;
        },
    };
    let cs = chars_of(id);
    let kind = string_of(chars_between(&cs, 0, i).as_slice());
    let rest = string_of(chars_between(&cs, i + 2, cs.len()).as_slice());
    proof {
        assert(cs@.subrange(0, i as int) =~= id@.take(i as int));
        assert(cs@.subrange(i + 2, cs.len() as int) =~= id@.skip(i + 2));
    }
    let n = match parse_index(rest.as_str()) {
        Some(n) => n,
        None => {
            return None;
        },
    };
    if text_is(kind.as_str(), "project") {
        sorted_project_at(projects, n, settings)
    } else if text_is(kind.as_str(), "adhoc") {
        sorted_project_at(adhoc, n, settings)
    } else {
        None
    }
}

} // verus!
