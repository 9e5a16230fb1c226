//! Text helpers shared by the pipeline: Unicode whitespace trimming and
//! decimal rendering of unsigned integers.

use vstd::prelude::*;

verus! {

/// The Unicode `White_Space` property: the characters that `str::trim`
/// removes from both ends of a string.
pub open spec fn is_unicode_whitespace(c: char) -> bool {
    let u = c as u32;
    ||| 0x09 <= u <= 0x0d
    ||| u == 0x20
    ||| u == 0x85
    ||| u == 0xa0
    ||| u == 0x1680
    ||| 0x2000 <= u <= 0x200a
    ||| u == 0x2028
    ||| u == 0x2029
    ||| u == 0x202f
    ||| u == 0x205f
    ||| u == 0x3000
}

/// `s` without its leading whitespace.
pub open spec fn trim_start(s: Seq<char>) -> Seq<char>
    decreases s.len(),
{
    if s.len() > 0 && is_unicode_whitespace(s[0]) {
        trim_start(s.drop_first())
    } else {
        s
    }
}

/// `s` without its trailing whitespace.
pub open spec fn trim_end(s: Seq<char>) -> Seq<char>
    decreases s.len(),
{
    if s.len() > 0 && is_unicode_whitespace(s.last()) {
        trim_end(s.drop_last())
    } else {
        s
    }
}

/// `s` without leading and trailing whitespace.
pub open spec fn trim(s: Seq<char>) -> Seq<char> {
    trim_end(trim_start(s))
}

/// A trimmed string neither starts nor ends with whitespace.
pub open spec fn is_trimmed(s: Seq<char>) -> bool {
    s.len() > 0 ==> !is_unicode_whitespace(s[0]) && !is_unicode_whitespace(s.last())
}

/// Calls `str::trim`, which returns the string with the leading and trailing
/// characters of the Unicode `White_Space` property removed; the contract
/// states exactly that.
#[verifier::external_body]
pub(crate) fn trim_str(s: &str) -> (r: &str)
    ensures
        r@ == trim(s@),
{
    s.trim()
}

/// `trim_end` only ever removes a suffix.
pub proof fn lemma_trim_end_prefix(s: Seq<char>)
    ensures
        trim_end(s).len() <= s.len(),
        trim_end(s) == s.take(trim_end(s).len() as int),
        trim_end(s).len() > 0 ==> !is_unicode_whitespace(trim_end(s).last()),
    decreases s.len(),
{
    if s.len() > 0 && is_unicode_whitespace(s.last()) {
        lemma_trim_end_prefix(s.drop_last());
        let t = trim_end(s.drop_last());
        assert(s.drop_last().take(t.len() as int) =~= s.take(t.len() as int));
    } else {
        assert(s.take(s.len() as int) =~= s);
    }
}

/// `trim_start` leaves a string that does not start with whitespace.
pub proof fn lemma_trim_start_head(s: Seq<char>)
    ensures
        trim_start(s).len() <= s.len(),
        trim_start(s).len() > 0 ==> !is_unicode_whitespace(trim_start(s)[0]),
    decreases s.len(),
{
    if s.len() > 0 && is_unicode_whitespace(s[0]) {
        lemma_trim_start_head(s.drop_first());
    }
}

/// The result of `trim` neither starts nor ends with whitespace.
pub proof fn lemma_trim_is_trimmed(s: Seq<char>)
    ensures
        is_trimmed(trim(s)),
        trim(s).len() <= s.len(),
{
    lemma_trim_start_head(s);
    let t = trim_start(s);
    lemma_trim_end_prefix(t);
    let u = trim_end(t);
    if u.len() > 0 {
        assert(u[0] == t[0]);
    }
}

/// A string that is already trimmed is left as it is by `trim`.
pub proof fn lemma_trim_of_trimmed(s: Seq<char>)
    requires
        is_trimmed(s),
    ensures
        trim(s) == s,
{
}

/// Trimming twice is trimming once.
pub proof fn lemma_trim_idempotent(s: Seq<char>)
    ensures
        trim(trim(s)) == trim(s),
{
    lemma_trim_is_trimmed(s);
    lemma_trim_of_trimmed(trim(s));
}

/// The decimal digit `d` (for `d < 10`) as a character.
pub open spec fn digit_char(d: nat) -> char {
    (48 + d) as char
}

/// The decimal representation of `n`, without leading zeros.
pub open spec fn decimal(n: nat) -> Seq<char>
    decreases n,
{
    if n < 10 {
        seq![digit_char(n)]
    } else {
        decimal(n / 10).push(digit_char(n % 10))
    }
}

/// Calls `ToString::to_string` on an unsigned integer, whose `Display` form is
/// its decimal representation without sign or leading zeros; the contract
/// states exactly that.
#[verifier::external_body]
pub(crate) fn decimal_text(n: u128) -> (r: String)
    ensures
        r@ == decimal(n as nat),
{
    n.to_string()
}

/// `items` joined with `sep` between consecutive items.
pub open spec fn join_with(items: Seq<Seq<char>>, sep: Seq<char>) -> Seq<char>
    decreases items.len(),
{
    if items.len() == 0 {
        Seq::empty()
    } else if items.len() == 1 {
        items[0]
    } else {
        join_with(items.drop_last(), sep) + sep + items.last()
    }
}

/// Appending one more item to a join adds the separator and the item.
pub proof fn lemma_join_with_push(items: Seq<Seq<char>>, sep: Seq<char>, item: Seq<char>)
    ensures
        join_with(items.push(item), sep) == if items.len() == 0 {
            item
        } else {
            join_with(items, sep) + sep + item
        },
{
    assert(items.push(item).drop_last() =~= items);
}

/// `c` is one of the ASCII digits `0`..`9`.
pub open spec fn is_ascii_digit(c: char) -> bool {
    48 <= (c as u32) <= 57
}

/// Every character of `s` is an ASCII digit.
pub open spec fn all_digits(s: Seq<char>) -> bool {
    forall|i: int| 0 <= i < s.len() ==> is_ascii_digit(#[trigger] s[i])
}

/// The number that a string of ASCII digits denotes, read most significant
/// digit first.
pub open spec fn digits_value(s: Seq<char>) -> nat
    decreases s.len(),
{
    if s.len() == 0 {
        0
    } else {
        digits_value(s.drop_last()) * 10 + ((s.last() as u32) - 48) as nat
    }
}

/// The decimal rendering of `n` is a non-empty string of digits that reads
/// back as `n` and has no leading zero (unless it is `0` itself).
pub proof fn lemma_decimal_reads_back(n: nat)
    ensures
        decimal(n).len() > 0,
        all_digits(decimal(n)),
        digits_value(decimal(n)) == n,
        decimal(n).len() > 1 ==> (decimal(n)[0] as u32) != 48,
        (decimal(n).len() == 1) == (n < 10),
    decreases n,
{
    if n < 10 {
        assert(digit_char(n) as u32 == 48 + n);
        assert(decimal(n) =~= seq![digit_char(n)]);
        assert(decimal(n).drop_last() =~= Seq::<char>::empty());
        assert(digits_value(Seq::<char>::empty()) == 0);
        assert(decimal(n).last() == digit_char(n));
    } else {
        lemma_decimal_reads_back(n / 10);
        let d = decimal(n / 10);
        let r = decimal(n);
        assert(digit_char(n % 10) as u32 == 48 + n % 10);
        assert(r == d.push(digit_char(n % 10)));
        assert(r.drop_last() =~= d);
        assert(forall|i: int| 0 <= i < d.len() ==> r[i] == d[i]);
        assert((n / 10) * 10 + n % 10 == n) by (nonlinear_arith);
        assert(r.last() == digit_char(n % 10));
        assert(digits_value(r) == digits_value(d) * 10 + n % 10);
        assert(r[0] == d[0]);
        if d.len() == 1 {
            assert(n / 10 < 10);
            assert(d == seq![digit_char(n / 10)]);
            assert(d[0] == digit_char(n / 10));
            assert(digit_char(n / 10) as u32 == 48 + n / 10);
        }
    }
}

/// Where item `i` starts when `items` are laid out one after another with one
/// element between consecutive items.
pub open spec fn item_offset<A>(items: Seq<Seq<A>>, i: int) -> int
    decreases i,
{
    if i <= 0 {
        0
    } else {
        item_offset(items, i - 1) + items[i - 1].len() + 1
    }
}

/// `joined` holds all of `items`, in order, with `sep` between consecutive
/// items and nothing else.
pub open spec fn lists_items<A>(joined: Seq<A>, items: Seq<Seq<A>>, sep: A) -> bool {
    &&& joined.len() == if items.len() == 0 {
        0
    } else {
        item_offset(items, items.len() as int) - 1
    }
    &&& forall|i: int|
        0 <= i < items.len() ==> joined.subrange(item_offset(items, i), item_offset(items, i) + items[i].len())
            == #[trigger] items[i]
    &&& forall|i: int|
        0 <= i < items.len() - 1 ==> joined[item_offset(items, i) + (#[trigger] items[i]).len()] == sep
}

/// Offsets only depend on the items before them.
pub proof fn lemma_item_offset_take<A>(items: Seq<Seq<A>>, n: int, i: int)
    requires
        0 <= i <= n <= items.len(),
    ensures
        item_offset(items.take(n), i) == item_offset(items, i),
    decreases i,
{
    if i > 0 {
        lemma_item_offset_take(items, n, i - 1);
        assert(items.take(n)[i - 1] == items[i - 1]);
    }
}

/// Offsets are never negative.
pub proof fn lemma_item_offset_nonneg<A>(items: Seq<Seq<A>>, i: int)
    ensures
        item_offset(items, i) >= 0,
    decreases i,
{
    if i > 0 {
        lemma_item_offset_nonneg(items, i - 1);
    }
}

/// Each item ends, with its separator, no later than the offset of any later
/// item.
pub proof fn lemma_item_offset_grows<A>(items: Seq<Seq<A>>, i: int, n: int)
    requires
        0 <= i < n <= items.len(),
    ensures
        item_offset(items, i) + items[i].len() + 1 <= item_offset(items, n),
    decreases n - i,
{
    if i + 1 < n {
        lemma_item_offset_grows(items, i + 1, n);
    }
}

/// The items of a listing stay in place when a separator and one more item
/// are appended.
proof fn lemma_lists_items_extend_items<A>(jr: Seq<A>, rest: Seq<Seq<A>>, sep: A, last: Seq<A>, i: int)
    requires
        rest.len() >= 1,
        0 <= i < rest.len(),
        jr.len() == item_offset(rest, rest.len() as int) - 1,
        jr.subrange(item_offset(rest, i), item_offset(rest, i) + rest[i].len()) == rest[i],
    ensures
        (jr + seq![sep] + last).subrange(
            item_offset(rest.push(last), i),
            item_offset(rest.push(last), i) + rest.push(last)[i].len(),
        ) == rest.push(last)[i],
{
    let items = rest.push(last);
    let n = items.len() as int;
    assert(items.take(n - 1) =~= rest);
    lemma_item_offset_take(items, n - 1, i);
    lemma_item_offset_grows(rest, i, n - 1);
    lemma_item_offset_nonneg(rest, i);
    assert(items[i] == rest[i]);
    let a = item_offset(rest, i);
    let b = a + rest[i].len();
    assert((jr + seq![sep] + last).subrange(a, b) =~= jr.subrange(a, b));
}

/// Appending a separator and one more item to a listing lists one more item.
pub proof fn lemma_lists_items_extend<A>(jr: Seq<A>, rest: Seq<Seq<A>>, sep: A, last: Seq<A>)
    requires
        rest.len() >= 1,
        lists_items(jr, rest, sep),
    ensures
        lists_items(jr + seq![sep] + last, rest.push(last), sep),
{
    let items = rest.push(last);
    let j = jr + seq![sep] + last;
    let n = items.len() as int;
    assert(items.take(n - 1) =~= rest);
    lemma_item_offset_take(items, n - 1, n - 1);
    assert(items[n - 1] == last);
    assert(item_offset(items, n) == item_offset(items, n - 1) + last.len() + 1);
    assert forall|i: int| 0 <= i < n implies j.subrange(item_offset(items, i), item_offset(items, i) + items[i].len())
        == #[trigger] items[i] by {
        if i < n - 1 {
            assert(jr.subrange(item_offset(rest, i), item_offset(rest, i) + rest[i].len()) == rest[i]);
            lemma_lists_items_extend_items(jr, rest, sep, last, i);
        } else {
            assert(j.subrange(item_offset(items, i), item_offset(items, i) + items[i].len()) =~= last);
        }
    }
    assert forall|i: int| 0 <= i < n - 1 implies j[item_offset(items, i) + (#[trigger] items[i]).len()] == sep by {
        if i < n - 2 {
            assert(jr[item_offset(rest, i) + rest[i].len()] == sep);
        }
        lemma_lists_items_extend_sep(jr, rest, sep, last, i);
    }
}

/// The separators of a listing stay in place, and one more is added, when a
/// separator and one more item are appended.
proof fn lemma_lists_items_extend_sep<A>(jr: Seq<A>, rest: Seq<Seq<A>>, sep: A, last: Seq<A>, i: int)
    requires
        rest.len() >= 1,
        0 <= i < rest.len(),
        jr.len() == item_offset(rest, rest.len() as int) - 1,
        i < rest.len() - 1 ==> jr[item_offset(rest, i) + rest[i].len()] == sep,
    ensures
        (jr + seq![sep] + last)[item_offset(rest.push(last), i) + rest.push(last)[i].len()] == sep,
{
    let items = rest.push(last);
    let j = jr + seq![sep] + last;
    let n = items.len() as int;
    assert(items.take(n - 1) =~= rest);
    lemma_item_offset_take(items, n - 1, i);
    lemma_item_offset_nonneg(rest, i);
    assert(items[i] == rest[i]);
    let x = item_offset(rest, i) + rest[i].len();
    if i < n - 2 {
        lemma_item_offset_grows(rest, i, n - 1);
        assert(j[x] == jr[x]);
    } else {
        assert(item_offset(rest, n - 1) == item_offset(rest, i) + rest[i].len() + 1);
        assert(x == jr.len());
    }
}

/// Joining items with a one-character separator lists exactly those items.
pub proof fn lemma_join_with_lists_items(items: Seq<Seq<char>>, sep: char)
    ensures
        lists_items(join_with(items, seq![sep]), items, sep),
    decreases items.len(),
{
    let n = items.len() as int;
    let j = join_with(items, seq![sep]);
    if n == 1 {
        assert(item_offset(items, 0) == 0);
        assert(item_offset(items, 1) == items[0].len() + 1);
        assert(j == items[0]);
        assert(j.subrange(0, items[0].len() as int) =~= items[0]);
    } else if n > 1 {
        let rest = items.drop_last();
        lemma_join_with_lists_items(rest, sep);
        lemma_lists_items_extend(join_with(rest, seq![sep]), rest, sep, items.last());
        assert(rest.push(items.last()) =~= items);
    }
}

/// Every character of `s` is whitespace.
pub open spec fn all_whitespace(s: Seq<char>) -> bool {
    forall|i: int| 0 <= i < s.len() ==> is_unicode_whitespace(#[trigger] s[i])
}

/// `trim_start` removes a run of whitespace from the front and nothing else.
pub proof fn lemma_trim_start_split(s: Seq<char>)
    ensures
        exists|a: Seq<char>| all_whitespace(a) && s == a + #[trigger] trim_start(s),
    decreases s.len(),
{
    if s.len() > 0 && is_unicode_whitespace(s[0]) {
        lemma_trim_start_split(s.drop_first());
        let a = choose|a: Seq<char>| all_whitespace(a) && s.drop_first() == a + #[trigger] trim_start(s.drop_first());
        let a2 = seq![s[0]] + a;
        assert(trim_start(s) == trim_start(s.drop_first()));
        assert(s =~= seq![s[0]] + s.drop_first());
        assert(s =~= a2 + trim_start(s));
        assert(all_whitespace(a2)) by {
            assert forall|i: int| 0 <= i < a2.len() implies is_unicode_whitespace(#[trigger] a2[i]) by {
                if i > 0 {
                    assert(a2[i] == a[i - 1]);
                }
            }
        }
    } else {
        let e = Seq::<char>::empty();
        assert(s =~= e + s);
        assert(all_whitespace(e) && s == e + trim_start(s));
    }
}

/// `trim_end` removes a run of whitespace from the back and nothing else.
pub proof fn lemma_trim_end_split(s: Seq<char>)
    ensures
        exists|b: Seq<char>| all_whitespace(b) && s == #[trigger] trim_end(s) + b,
    decreases s.len(),
{
    if s.len() > 0 && is_unicode_whitespace(s.last()) {
        lemma_trim_end_split(s.drop_last());
        let b = choose|b: Seq<char>| all_whitespace(b) && s.drop_last() == #[trigger] trim_end(s.drop_last()) + b;
        let b2 = b.push(s.last());
        assert(trim_end(s) == trim_end(s.drop_last()));
        assert(s =~= s.drop_last().push(s.last()));
        assert(s =~= trim_end(s) + b2);
        assert(all_whitespace(b2)) by {
            assert forall|i: int| 0 <= i < b2.len() implies is_unicode_whitespace(#[trigger] b2[i]) by {
                if i < b.len() {
                    assert(b2[i] == b[i]);
                }
            }
        }
    } else {
        let e = Seq::<char>::empty();
        assert(s =~= s + e);
        assert(all_whitespace(e) && s == trim_end(s) + e);
    }
}

/// Trimming splits a string into leading whitespace, the trimmed text, and
/// trailing whitespace; the trimmed text neither starts nor ends with
/// whitespace.
pub proof fn lemma_trim_split(s: Seq<char>)
    ensures
        exists|a: Seq<char>, b: Seq<char>|
            all_whitespace(a) && all_whitespace(b) && s == a + #[trigger] trim(s) + b,
        is_trimmed(trim(s)),
{
    lemma_trim_start_split(s);
    let a = choose|a: Seq<char>| all_whitespace(a) && s == a + #[trigger] trim_start(s);
    lemma_trim_end_split(trim_start(s));
    let b = choose|b: Seq<char>| all_whitespace(b) && trim_start(s) == #[trigger] trim_end(trim_start(s)) + b;
    assert(s =~= a + trim(s) + b);
    lemma_trim_is_trimmed(s);
}

} // verus!
