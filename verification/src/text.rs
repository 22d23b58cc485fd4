use vstd::prelude::*;
use vstd::utf8::{decode_utf8, encode_utf8};

verus! {

broadcast use vstd::utf8::encode_utf8_decode_utf8;

// ---------------------------------------------------------------- equality

/// `a` and `b` hold the same characters.
pub fn str_equal(a: &str, b: &str) -> (r: bool)
    ensures
        r == (a@ == b@),
{
    let x = a.as_bytes();
    let y = b.as_bytes();
    if x.len() != y.len() {
        return false;
    }
    let mut i: usize = 0;
    while i < x.len()
        invariant
            x@ == encode_utf8(a@),
            y@ == encode_utf8(b@),
            x@.len() == y@.len(),
            i <= x@.len(),
            x@.take(i as int) == y@.take(i as int),
        decreases x@.len() - i,
    {
        if x[i] != y[i] {
            return false;
        }
        assert(x@.take(i + 1) =~= x@.take(i as int).push(x@[i as int]));
        assert(y@.take(i + 1) =~= y@.take(i as int).push(y@[i as int]));
        i = i + 1;
    }
    assert(x@ =~= x@.take(i as int));
    assert(y@ =~= y@.take(i as int));
    proof {
        lemma_encode_injective(a@, b@);
    }
    true
}

// ---------------------------------------------------------------- ordering

/// Lexicographic order on byte strings: the order of `String` in std.
pub open spec fn bytes_lt(a: Seq<u8>, b: Seq<u8>) -> bool
    decreases a.len(),
{
    if a.len() == 0 {
        b.len() > 0
    } else if b.len() == 0 {
        false
    } else if a[0] != b[0] {
        a[0] < b[0]
    } else {
        bytes_lt(a.drop_first(), b.drop_first())
    }
}

/// The order of `String` in std, on character sequences: lexicographic on
/// their UTF-8 bytes.
pub open spec fn text_lt(a: Seq<char>, b: Seq<char>) -> bool {
    bytes_lt(encode_utf8(a), encode_utf8(b))
}

proof fn lemma_bytes_lt_skip(a: Seq<u8>, b: Seq<u8>, i: int)
    requires
        0 <= i <= a.len(),
        i <= b.len(),
        a.take(i) == b.take(i),
    ensures
        bytes_lt(a, b) == bytes_lt(a.skip(i), b.skip(i)),
    decreases i,
{
    if i > 0 {
        assert(a[0] == a.take(i)[0]);
        assert(b[0] == b.take(i)[0]);
        assert(a.drop_first().take(i - 1) =~= a.take(i).drop_first());
        assert(b.drop_first().take(i - 1) =~= b.take(i).drop_first());
        lemma_bytes_lt_skip(a.drop_first(), b.drop_first(), i - 1);
        assert(a.drop_first().skip(i - 1) =~= a.skip(i));
        assert(b.drop_first().skip(i - 1) =~= b.skip(i));
    } else {
        assert(a.skip(0) =~= a);
        assert(b.skip(0) =~= b);
    }
}

/// `a` comes strictly before `b` in the order of `String`.
pub fn str_less(a: &str, b: &str) -> (r: bool)
    ensures
        r == text_lt(a@, b@),
{
    let x = a.as_bytes();
    let y = b.as_bytes();
    let mut i: usize = 0;
    while i < x.len() && i < y.len()
        invariant
            x@ == encode_utf8(a@),
            y@ == encode_utf8(b@),
            i <= x@.len(),
            i <= y@.len(),
            x@.take(i as int) == y@.take(i as int),
        decreases x@.len() - i,
    {
        if x[i] != y[i] {
            proof {
                lemma_bytes_lt_skip(x@, y@, i as int);
            }
            return x[i] < y[i];
        }
        assert(x@.take(i + 1) =~= x@.take(i as int).push(x@[i as int]));
        assert(y@.take(i + 1) =~= y@.take(i as int).push(y@[i as int]));
        i = i + 1;
    }
    proof {
        lemma_bytes_lt_skip(x@, y@, i as int);
    }
    i < y.len()
}

/// `bytes_lt` is irreflexive.
pub proof fn lemma_bytes_lt_irreflexive(a: Seq<u8>)
    ensures
        !bytes_lt(a, a),
    decreases a.len(),
{
    if a.len() > 0 {
        lemma_bytes_lt_irreflexive(a.drop_first());
    }
}

/// `bytes_lt` is transitive.
pub proof fn lemma_bytes_lt_transitive(a: Seq<u8>, b: Seq<u8>, c: Seq<u8>)
    requires
        bytes_lt(a, b),
        bytes_lt(b, c),
    ensures
        bytes_lt(a, c),
    decreases a.len(),
{
    if a.len() > 0 && b.len() > 0 && c.len() > 0 && a[0] == b[0] && b[0] == c[0] {
        lemma_bytes_lt_transitive(a.drop_first(), b.drop_first(), c.drop_first());
    }
}

/// Any two byte strings are equal or ordered one way or the other.
pub proof fn lemma_bytes_lt_total(a: Seq<u8>, b: Seq<u8>)
    ensures
        a == b || bytes_lt(a, b) || bytes_lt(b, a),
    decreases a.len(),
{
    if a.len() > 0 && b.len() > 0 && a[0] == b[0] {
        lemma_bytes_lt_total(a.drop_first(), b.drop_first());
        if a.drop_first() == b.drop_first() {
            assert(a =~= seq![a[0]] + a.drop_first());
            assert(b =~= seq![b[0]] + b.drop_first());
        }
    } else if a.len() == 0 && b.len() == 0 {
        assert(a =~= b);
    }
}

/// Two character sequences are equal exactly when their UTF-8 bytes are.
pub proof fn lemma_encode_injective(a: Seq<char>, b: Seq<char>)
    ensures
        (encode_utf8(a) == encode_utf8(b)) == (a == b),
{
    assert(decode_utf8(encode_utf8(a)) == a);
    assert(decode_utf8(encode_utf8(b)) == b);
}

// ---------------------------------------------------------------- whitespace

/// The Unicode White_Space property, which `char::is_whitespace` tests.
pub open spec fn is_white_space(c: char) -> bool {
    let u: u32 = c as u32;
    ||| 0x09 <= u <= 0x0D
    ||| u == 0x20
    ||| u == 0x85
    ||| u == 0xA0
    ||| u == 0x1680
    ||| 0x2000 <= u <= 0x200A
    ||| u == 0x2028
    ||| u == 0x2029
    ||| u == 0x202F
    ||| u == 0x205F
    ||| u == 0x3000
}

fn white_space(c: char) -> (r: bool)
    ensures
        r == is_white_space(c),
{
    let u: u32 = c as u32;
    (0x09 <= u && u <= 0x0D) || u == 0x20 || u == 0x85 || u == 0xA0 || u == 0x1680 || (0x2000
        <= u && u <= 0x200A) || u == 0x2028 || u == 0x2029 || u == 0x202F || u == 0x205F || u
        == 0x3000
}

/// `s` without its leading white space.
pub open spec fn trim_start(s: Seq<char>) -> Seq<char>
    decreases s.len(),
{
    if s.len() > 0 && is_white_space(s[0]) {
        trim_start(s.drop_first())
    } else {
        s
    }
}

/// `s` without its trailing white space.
pub open spec fn trim_end(s: Seq<char>) -> Seq<char>
    decreases s.len(),
{
    if s.len() > 0 && is_white_space(s.last()) {
        trim_end(s.drop_last())
    } else {
        s
    }
}

/// `s` without leading and trailing white space, as `str::trim` returns it.
pub open spec fn trim(s: Seq<char>) -> Seq<char> {
    trim_end(trim_start(s))
}

proof fn lemma_trim_start_at(s: Seq<char>, k: int)
    requires
        0 <= k <= s.len(),
        forall|j: int| 0 <= j < k ==> is_white_space(#[trigger] s[j]),
        k == s.len() || !is_white_space(s[k]),
    ensures
        trim_start(s) == s.skip(k),
    decreases k,
{
    if k > 0 {
        assert(s.drop_first().skip(k - 1) =~= s.skip(k));
        assert forall|j: int| 0 <= j < k - 1 implies is_white_space(#[trigger] s.drop_first()[j]) by {
            assert(s.drop_first()[j] == s[j + 1]);
        }
        lemma_trim_start_at(s.drop_first(), k - 1);
    } else {
        assert(s.skip(0) =~= s);
    }
}

proof fn lemma_trim_end_at(s: Seq<char>, k: int)
    requires
        0 <= k <= s.len(),
        forall|j: int| k <= j < s.len() ==> is_white_space(#[trigger] s[j]),
        k == 0 || !is_white_space(s[k - 1]),
    ensures
        trim_end(s) == s.take(k),
    decreases s.len() - k,
{
    if k < s.len() {
        assert(s.drop_last().take(k) =~= s.take(k));
        assert forall|j: int| k <= j < s.drop_last().len() implies is_white_space(
            #[trigger] s.drop_last()[j],
        ) by {
            assert(s.drop_last()[j] == s[j]);
        }
        lemma_trim_end_at(s.drop_last(), k);
    } else {
        assert(s.take(k) =~= s);
    }
}

/// Character bounds of `raw[start..end]` with surrounding white space removed.
fn trimmed_bounds(raw: &str, start: usize, end: usize) -> (r: (usize, usize))
    requires
        start <= end <= raw@.len(),
    ensures
        start <= r.0 <= r.1 <= end,
        raw@.subrange(r.0 as int, r.1 as int) == trim(raw@.subrange(start as int, end as int)),
{
    let mut a: usize = start;
    while a < end && white_space(raw.get_char(a))
        invariant
            start <= a <= end <= raw@.len(),
            forall|j: int| start <= j < a ==> is_white_space(#[trigger] raw@[j]),
        decreases end - a,
    {
        a = a + 1;
    }
    let mut b: usize = end;
    while b > a && white_space(raw.get_char(b - 1))
        invariant
            start <= a <= b <= end <= raw@.len(),
            forall|j: int| b <= j < end ==> is_white_space(#[trigger] raw@[j]),
        decreases b - a,
    {
        b = b - 1;
    }
    proof {
        let piece = raw@.subrange(start as int, end as int);
        assert forall|j: int| 0 <= j < a - start implies is_white_space(#[trigger] piece[j]) by {
            assert(piece[j] == raw@[start + j]);
        }
        if a < end {
            assert(piece[a - start] == raw@[a as int]);
        }
        lemma_trim_start_at(piece, a - start);
        assert(piece.skip(a - start) =~= raw@.subrange(a as int, end as int));
        let rest = raw@.subrange(a as int, end as int);
        assert forall|j: int| b - a <= j < rest.len() implies is_white_space(#[trigger] rest[j]) by {
            assert(rest[j] == raw@[a + j]);
        }
        if b > a {
            assert(rest[b - a - 1] == raw@[b - 1]);
        }
        lemma_trim_end_at(rest, b - a);
        assert(rest.take(b - a) =~= raw@.subrange(a as int, b as int));
    }
    (a, b)
}

// ---------------------------------------------------------------- lists

/// The pieces of `s` between occurrences of `sep`, as `str::split` yields
/// them (an empty `s` gives one empty piece).
pub open spec fn split_pieces(s: Seq<char>, sep: char) -> Seq<Seq<char>>
    decreases s.len(),
{
    if s.len() == 0 {
        seq![Seq::empty()]
    } else {
        let p = split_pieces(s.drop_last(), sep);
        if s.last() == sep {
            p.push(Seq::empty())
        } else {
            p.update(p.len() - 1, p.last().push(s.last()))
        }
    }
}

proof fn lemma_split_pieces_nonempty(s: Seq<char>, sep: char)
    ensures
        split_pieces(s, sep).len() >= 1,
    decreases s.len(),
{
    if s.len() > 0 {
        lemma_split_pieces_nonempty(s.drop_last(), sep);
    }
}

/// Keeps the pieces that are not empty.
pub open spec fn non_empty(pieces: Seq<Seq<char>>) -> Seq<Seq<char>> {
    pieces.filter(|p: Seq<char>| p.len() > 0)
}

/// The items of a comma-separated list: each piece trimmed, empty ones
/// dropped.
pub open spec fn list_items(s: Seq<char>) -> Seq<Seq<char>> {
    non_empty(split_pieces(s, ',').map_values(|p: Seq<char>| trim(p)))
}

/// The characters held by each string.
pub open spec fn views(v: Seq<String>) -> Seq<Seq<char>> {
    v.map_values(|x: String| x@)
}

proof fn lemma_trim_start_suffix(s: Seq<char>)
    ensures
        exists|k: int| 0 <= k <= s.len() && trim_start(s) == s.skip(k),
        trim_start(s).len() > 0 ==> !is_white_space(trim_start(s)[0]),
    decreases s.len(),
{
    if s.len() > 0 && is_white_space(s[0]) {
        lemma_trim_start_suffix(s.drop_first());
        let k = choose|k: int|
            0 <= k <= s.drop_first().len() && trim_start(s.drop_first()) == s.drop_first().skip(k);
        assert(s.drop_first().skip(k) =~= s.skip(k + 1));
    } else {
        assert(s.skip(0) =~= s);
    }
}

proof fn lemma_trim_end_prefix(s: Seq<char>)
    ensures
        exists|k: int| 0 <= k <= s.len() && trim_end(s) == s.take(k),
        trim_end(s).len() > 0 ==> !is_white_space(trim_end(s).last()),
    decreases s.len(),
{
    if s.len() > 0 && is_white_space(s.last()) {
        lemma_trim_end_prefix(s.drop_last());
        let k = choose|k: int|
            0 <= k <= s.drop_last().len() && trim_end(s.drop_last()) == s.drop_last().take(k);
        assert(s.drop_last().take(k) =~= s.take(k));
    } else {
        assert(s.take(s.len() as int) =~= s);
    }
}

/// Trimming keeps a contiguous part of the piece that neither starts nor
/// ends with white space.
pub proof fn lemma_trim_part(s: Seq<char>)
    ensures
        exists|i: int, j: int| 0 <= i <= j <= s.len() && trim(s) == s.subrange(i, j),
        trim(s).len() > 0 ==> !is_white_space(trim(s)[0]) && !is_white_space(trim(s).last()),
{
    lemma_trim_start_suffix(s);
    let a = trim_start(s);
    let i = choose|k: int| 0 <= k <= s.len() && a == s.skip(k);
    lemma_trim_end_prefix(a);
    let j = choose|k: int| 0 <= k <= a.len() && trim_end(a) == a.take(k);
    assert(a.take(j) =~= s.subrange(i, i + j));
    if trim(s).len() > 0 {
        assert(trim(s)[0] == a[0]);
    }
}

proof fn lemma_split_pieces_no_sep(s: Seq<char>, sep: char)
    ensures
        forall|t: int|
            0 <= t < split_pieces(s, sep).len() ==> !(#[trigger] split_pieces(s, sep)[t]).contains(
                sep,
            ),
    decreases s.len(),
{
    lemma_split_pieces_nonempty(s, sep);
    if s.len() > 0 {
        lemma_split_pieces_no_sep(s.drop_last(), sep);
        lemma_split_pieces_nonempty(s.drop_last(), sep);
        let p = split_pieces(s.drop_last(), sep);
        let q = split_pieces(s, sep);
        assert forall|t: int| 0 <= t < q.len() implies !(#[trigger] q[t]).contains(sep) by {
            if s.last() == sep {
                if t < p.len() {
                    assert(q[t] == p[t]);
                }
            } else if t < p.len() - 1 {
                assert(q[t] == p[t]);
            } else {
                let last = p.last();
                assert(q[t] == last.push(s.last()));
                assert(!p[p.len() - 1].contains(sep));
                if q[t].contains(sep) {
                    let u = choose|u: int| 0 <= u < q[t].len() && q[t][u] == sep;
                    assert(u < last.len());
                    assert(last[u] == sep);
                }
            }
        }
    }
}

/// The items of a comma-separated list are non-empty, hold no comma, and
/// neither start nor end with white space.
pub proof fn lemma_list_items_clean(s: Seq<char>)
    ensures
        forall|t: int|
            0 <= t < list_items(s).len() ==> {
                let item = #[trigger] list_items(s)[t];
                &&& item.len() > 0
                &&& !item.contains(',')
                &&& !is_white_space(item[0])
                &&& !is_white_space(item.last())
            },
{
    let pieces = split_pieces(s, ',');
    let trimmed = pieces.map_values(|p: Seq<char>| trim(p));
    let keep = |p: Seq<char>| p.len() > 0;
    lemma_split_pieces_no_sep(s, ',');
    assert forall|t: int| 0 <= t < list_items(s).len() implies {
        let item = #[trigger] list_items(s)[t];
        &&& item.len() > 0
        &&& !item.contains(',')
        &&& !is_white_space(item[0])
        &&& !is_white_space(item.last())
    } by {
        let item = list_items(s)[t];
        trimmed.lemma_filter_pred(keep, t);
        assert(trimmed.filter(keep).contains(item));
        trimmed.lemma_filter_contains_rev(keep, item);
        let v = choose|v: int| 0 <= v < trimmed.len() && trimmed[v] == item;
        let piece = pieces[v];
        assert(item == trim(piece));
        lemma_trim_part(piece);
        let (i, j) = choose|i: int, j: int|
            0 <= i <= j <= piece.len() && trim(piece) == piece.subrange(i, j);
        assert(!piece.contains(','));
        if item.contains(',') {
            let w = choose|w: int| 0 <= w < item.len() && item[w] == ',';
            assert(piece[i + w] == ',');
        }
    }
}

/// Appends `raw[start..end]`, trimmed, to `out` unless that is empty.
fn push_trimmed(out: &mut Vec<String>, raw: &str, start: usize, end: usize)
    requires
        start <= end <= raw@.len(),
    ensures
        views(final(out)@) == views(old(out)@) + non_empty(
            seq![trim(raw@.subrange(start as int, end as int))],
        ),
{
    let (a, b) = trimmed_bounds(raw, start, end);
    let ghost piece = trim(raw@.subrange(start as int, end as int));
    proof {
        reveal_with_fuel(Seq::filter, 2);
    }
    if a < b {
        let item = raw.substring_char(a, b).to_owned();
        out.push(item);
        assert(views(out@) =~= views(old(out)@).push(piece));
        assert(seq![piece].drop_last() =~= Seq::<Seq<char>>::empty());
        assert(non_empty(seq![piece]) =~= seq![piece]);
    } else {
        assert(seq![piece].drop_last() =~= Seq::<Seq<char>>::empty());
        assert(non_empty(seq![piece]) =~= Seq::<Seq<char>>::empty());
        assert(views(out@) =~= views(old(out)@) + non_empty(seq![piece]));
    }
}

/// Splits a comma-separated list into its trimmed, non-empty items.
pub fn csv(raw: &str) -> (r: Vec<String>)
    ensures
        views(r@) == list_items(raw@),
{
    let n: usize = raw.unicode_len();
    let mut out: Vec<String> = Vec::new();
    let mut start: usize = 0;
    let mut i: usize = 0;
    let ghost mut closed: Seq<Seq<char>> = Seq::empty();
    assert(raw@.take(0) =~= Seq::<char>::empty());
    assert(raw@.subrange(0, 0) =~= Seq::<char>::empty());
    assert(split_pieces(raw@.take(0), ',') =~= closed.push(raw@.subrange(0, 0)));
    while i < n
        invariant
            n == raw@.len(),
            start <= i <= n,
            split_pieces(raw@.take(i as int), ',') == closed.push(
                raw@.subrange(start as int, i as int),
            ),
            views(out@) == non_empty(closed.map_values(|p: Seq<char>| trim(p))),
        decreases n - i,
    {
        let c = raw.get_char(i);
        let ghost before = raw@.take(i as int);
        assert(raw@.take(i + 1).drop_last() =~= before);
        assert(raw@.take(i + 1).last() == c);
        if c == ',' {
            push_trimmed(&mut out, raw, start, i);
            proof {
                let piece = raw@.subrange(start as int, i as int);
                let trimmed = |p: Seq<char>| trim(p);
                assert(closed.push(piece).map_values(trimmed) =~= closed.map_values(trimmed).push(
                    trim(piece),
                ));
                assert(closed.map_values(trimmed).push(trim(piece)) =~= closed.map_values(
                    trimmed,
                ) + seq![trim(piece)]);
                Seq::filter_distributes_over_add(
                    closed.map_values(trimmed),
                    seq![trim(piece)],
                    |p: Seq<char>| p.len() > 0,
                );
                closed = closed.push(piece);
                assert(raw@.subrange(i + 1, i + 1) =~= Seq::<char>::empty());
            }
            start = i + 1;
        } else {
            assert(raw@.subrange(start as int, i + 1) =~= raw@.subrange(
                start as int,
                i as int,
            ).push(c));
            assert(closed.push(raw@.subrange(start as int, i as int)).update(
                closed.len() as int,
                raw@.subrange(start as int, i as int).push(c),
            ) =~= closed.push(raw@.subrange(start as int, i + 1)));
        }
        i = i + 1;
    }
    push_trimmed(&mut out, raw, start, n);
    proof {
        let piece = raw@.subrange(start as int, n as int);
        let trimmed = |p: Seq<char>| trim(p);
        assert(raw@.take(n as int) =~= raw@);
        assert(closed.push(piece).map_values(trimmed) =~= closed.map_values(trimmed) + seq![
            trim(piece),
        ]);
        Seq::filter_distributes_over_add(
            closed.map_values(trimmed),
            seq![trim(piece)],
            |p: Seq<char>| p.len() > 0,
        );
    }
    out
}

// ---------------------------------------------------------------- options

/// The option name of a `--name` argument.
pub open spec fn option_name(arg: Seq<char>) -> Option<Seq<char>> {
    if arg.len() >= 2 && arg[0] == '-' && arg[1] == '-' {
        Some(arg.skip(2))
    } else {
        None
    }
}

/// The `(name, value)` pairs of `args[i..]`: an argument `--name` followed
/// by another argument gives the pair `(name, next)` and consumes both;
/// every other argument is skipped.
pub open spec fn option_pairs(args: Seq<Seq<char>>, i: int) -> Seq<(Seq<char>, Seq<char>)>
    decreases args.len() - i,
{
    if i < 0 || i >= args.len() {
        Seq::empty()
    } else if option_name(args[i]) is Some && i + 1 < args.len() {
        seq![(option_name(args[i])->0, args[i + 1])] + option_pairs(args, i + 2)
    } else {
        option_pairs(args, i + 1)
    }
}

/// The characters held by each pair of strings.
pub open spec fn pair_views(v: Seq<(String, String)>) -> Seq<(Seq<char>, Seq<char>)> {
    v.map_values(|p: (String, String)| (p.0@, p.1@))
}

/// Collects the `--name value` pairs of a command line, in order.
pub fn parse_args(args: &[String]) -> (r: Vec<(String, String)>)
    ensures
        pair_views(r@) == option_pairs(views(args@), 0),
{
    let ghost a = views(args@);
    let mut out: Vec<(String, String)> = Vec::new();
    let mut i: usize = 0;
    while i < args.len()
        invariant
            a == views(args@),
            i <= args@.len() + 1,
            pair_views(out@) + option_pairs(a, i as int) == option_pairs(a, 0),
        decreases args@.len() + 1 - i,
    {
        let arg = args[i].as_str();
        let len: usize = arg.unicode_len();
        if len >= 2 && arg.get_char(0) == '-' && arg.get_char(1) == '-' && i + 1 < args.len() {
            let name = arg.substring_char(2, len).to_owned();
            let value = args[i + 1].clone();
            let ghost before = pair_views(out@);
            out.push((name, value));
            assert(pair_views(out@) =~= before.push((a[i as int].skip(2), a[i + 1])));
            assert(option_pairs(a, i as int) == seq![(a[i as int].skip(2), a[i + 1])]
                + option_pairs(a, i + 2));
            assert(before.push((a[i as int].skip(2), a[i + 1])) + option_pairs(a, i + 2)
                =~= before + (seq![(a[i as int].skip(2), a[i + 1])] + option_pairs(a, i + 2)));
            i = i + 2;
        } else {
            i = i + 1;
        }
    }
    assert(option_pairs(a, i as int) =~= Seq::<(Seq<char>, Seq<char>)>::empty());
    assert(pair_views(out@) + Seq::<(Seq<char>, Seq<char>)>::empty() =~= pair_views(out@));
    out
}

} // verus!
