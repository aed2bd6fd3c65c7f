//! The names of table files and their order in time.
use vstd::prelude::*;
use vstd::slice::slice_subrange;

use crate::order;
use crate::order::is_before;
use crate::text;
use crate::text::put_digits;

verus! {

/// The bytes of `sst_`.
pub open spec fn name_prefix() -> Seq<u8> {
    seq![115u8, 115u8, 116u8, 95u8]
}

/// The bytes of `.sst`.
pub open spec fn name_suffix() -> Seq<u8> {
    seq![46u8, 115u8, 115u8, 116u8]
}

/// Digits with zeros in front, so that there are at least six.
pub open spec fn padded(digits: Seq<u8>) -> Seq<u8> {
    if digits.len() >= 6 {
        digits
    } else {
        Seq::new((6 - digits.len()) as nat, |i: int| 48u8) + digits
    }
}

/// The name of the table file with a number.
pub open spec fn table_name(id: nat) -> Seq<u8> {
    name_prefix() + padded(text::digits(id)) + name_suffix()
}

pub open spec fn is_digit(b: u8) -> bool {
    48 <= b <= 57
}

/// The number that decimal digits spell.
pub open spec fn digits_value(s: Seq<u8>) -> nat
    decreases s.len(),
{
    if s.len() == 0 {
        0
    } else {
        (10 * digits_value(s.drop_last()) + (s.last() - 48)) as nat
    }
}

pub open spec fn all_digits(s: Seq<u8>) -> bool {
    s.len() > 0 && forall|i: int| 0 <= i < s.len() ==> is_digit(#[trigger] s[i])
}

/// Text behind a plus sign, where there is one with something behind it.
pub open spec fn unsigned(s: Seq<u8>) -> Seq<u8> {
    if s.len() > 1 && s[0] == 43 {
        s.skip(1)
    } else {
        s
    }
}

/// The number that text in decimal spells, where it fits into 64 bits. A plus
/// sign may stand in front.
pub open spec fn number_in(s: Seq<u8>) -> Option<nat> {
    if all_digits(unsigned(s)) && digits_value(unsigned(s)) <= u64::MAX {
        Some(digits_value(unsigned(s)))
    } else {
        None
    }
}

/// Whether a file is a table: its name ends in `.sst` behind something else.
pub open spec fn is_table(name: Seq<u8>) -> bool {
    name.len() > 4 && name.skip(name.len() - 4) == name_suffix()
}

/// The number of a table file, where its name has one.
pub open spec fn table_id(name: Seq<u8>) -> Option<nat> {
    if is_table(name) && name.len() >= 8 && name.take(4) == name_prefix() {
        number_in(name.subrange(4, name.len() - 4))
    } else {
        None
    }
}

/// Whether table `a` is newer than table `b`: the one with the higher number
/// is. A table without a number is older than every table with one. Where the
/// numbers do not decide, the names do.
pub open spec fn newer(a: Seq<u8>, b: Seq<u8>) -> bool {
    match (table_id(a), table_id(b)) {
        (Some(x), Some(y)) => x > y || (x == y && order::precedes(b, a)),
        (Some(_), None) => true,
        (None, Some(_)) => false,
        (None, None) => order::precedes(b, a),
    }
}

pub proof fn lemma_newer_transitive(a: Seq<u8>, b: Seq<u8>, c: Seq<u8>)
    requires
        newer(a, b),
        newer(b, c),
    ensures
        newer(a, c),
{
    if order::precedes(b, a) && order::precedes(c, b) {
        order::lemma_transitive(c, b, a);
    }
}

pub proof fn lemma_newer_asymmetric(a: Seq<u8>, b: Seq<u8>)
    requires
        newer(a, b),
    ensures
        !newer(b, a),
{
    if order::precedes(b, a) {
        order::lemma_asymmetric(b, a);
    }
}

/// Of two different names one is newer.
pub proof fn lemma_newer_total(a: Seq<u8>, b: Seq<u8>)
    ensures
        a == b || newer(a, b) || newer(b, a),
{
    order::lemma_total(a, b);
}

/// Of two tables with numbers the one with the higher number is newer.
pub proof fn law_higher_number_is_newer(a: Seq<u8>, b: Seq<u8>)
    requires
        table_id(a) matches Some(x) && table_id(b) matches Some(y) && x > y,
    ensures
        newer(a, b),
        !newer(b, a),
{
}

proof fn lemma_digits(n: nat)
    ensures
        digits_value(text::digits(n)) == n,
        text::digits(n).len() > 0,
        forall|i: int| 0 <= i < text::digits(n).len() ==> is_digit(#[trigger] text::digits(n)[i]),
    decreases n,
{
    let all = text::digits(n);
    if n >= 10 {
        let front = text::digits(n / 10);
        lemma_digits(n / 10);
        assert(all.drop_last() =~= front);
        assert forall|i: int| 0 <= i < all.len() implies is_digit(#[trigger] all[i]) by {
            if i < front.len() {
                assert(all[i] == front[i]);
            }
        }
    } else {
        assert(all.drop_last() =~= Seq::empty());
        assert(digits_value(Seq::empty()) == 0);
    }
}

proof fn lemma_zeros(zeros: nat, s: Seq<u8>)
    ensures
        digits_value(Seq::new(zeros, |i: int| 48u8) + s) == digits_value(s),
    decreases zeros + s.len(),
{
    let all = Seq::new(zeros, |i: int| 48u8) + s;
    if s.len() > 0 {
        lemma_zeros(zeros, s.drop_last());
        assert(all.drop_last() =~= Seq::new(zeros, |i: int| 48u8) + s.drop_last());
    } else if zeros > 0 {
        lemma_zeros((zeros - 1) as nat, s);
        assert(all.drop_last() =~= Seq::new((zeros - 1) as nat, |i: int| 48u8) + s);
    } else {
        assert(all =~= s);
    }
}

/// One more digit behind others is the lowest one of the number that they spell.
pub proof fn law_digits_count_in_tens(s: Seq<u8>, d: u8)
    requires
        all_digits(s) || s.len() == 0,
        48 <= d <= 57,
    ensures
        digits_value(Seq::empty()) == 0,
        digits_value(s.push(d)) == 10 * digits_value(s) + (d - 48),
{
    assert(s.push(d).drop_last() =~= s);
}

/// A number in decimal is spelled with digits, all of them and no zero in front,
/// and as text with the same digits as characters.
pub proof fn law_decimal_spells_the_number(n: nat)
    ensures
        digits_value(text::digits(n)) == n,
        forall|i: int|
            0 <= i < text::digits(n).len() ==> 48 <= #[trigger] text::digits(n)[i] <= 57,
        n < 10 ==> text::digits(n).len() == 1,
        n >= 10 ==> text::digits(n).len() > 1 && text::digits(n)[0] != 48,
        text::decimal(n).len() == text::digits(n).len(),
        forall|i: int|
            0 <= i < text::decimal(n).len() ==> #[trigger] text::decimal(n)[i] as int
                == text::digits(n)[i] as int,
    decreases n,
{
    lemma_digits(n);
    assert forall|i: int| 0 <= i < text::digits(n).len() implies 48 <= #[trigger] text::digits(
        n,
    )[i] <= 57 by {
        assert(is_digit(text::digits(n)[i]));
    }
    if n >= 10 {
        law_decimal_spells_the_number(n / 10);
        assert(text::digits(n)[0] == text::digits(n / 10)[0]);
    }
}

/// The name of a table is `sst_`, its number in decimal and `.sst`. The number has
/// at least six digits, with zeros in front only where it needs them for that.
pub proof fn law_table_name_spells_the_number(id: nat)
    ensures
        ({
            let name = table_name(id);
            let number = name.subrange(4, name.len() - 4);
            &&& name.len() >= 14
            &&& name.take(4) == seq![115u8, 115u8, 116u8, 95u8]
            &&& name.skip(name.len() - 4) == seq![46u8, 115u8, 115u8, 116u8]
            &&& all_digits(number)
            &&& digits_value(number) == id
            &&& number.len() > 6 ==> number[0] != 48
        }),
{
    let digits = text::digits(id);
    let name = table_name(id);
    let number = name.subrange(4, name.len() - 4);
    lemma_digits(id);
    law_decimal_spells_the_number(id);
    assert(number =~= padded(digits));
    assert(name.take(4) =~= seq![115u8, 115u8, 116u8, 95u8]);
    assert(name.skip(name.len() - 4) =~= seq![46u8, 115u8, 115u8, 116u8]);
    if digits.len() < 6 {
        lemma_zeros((6 - digits.len()) as nat, digits);
    }
    assert forall|i: int| 0 <= i < number.len() implies is_digit(#[trigger] number[i]) by {
        if digits.len() < 6 && i >= 6 - digits.len() {
            assert(number[i] == digits[i - (6 - digits.len())]);
        }
    }
}

/// Digits spell a number where it fits into 64 bits, with or without a plus sign
/// in front; anything else spells none.
pub proof fn law_number_is_what_digits_spell(s: Seq<u8>)
    ensures
        all_digits(s) ==> number_in(s) == if digits_value(s) <= 0xffff_ffff_ffff_ffff {
            Some(digits_value(s))
        } else {
            None
        },
        all_digits(s) ==> number_in(seq![43u8] + s) == number_in(s),
        s.len() == 0 ==> number_in(s) is None && number_in(seq![43u8] + s) is None,
        number_in(s) is Some ==> all_digits(s) || (s[0] == 43 && all_digits(s.skip(1))),
{
    let signed = seq![43u8] + s;
    assert(signed.skip(1) =~= s);
    if all_digits(s) {
        assert(is_digit(s[0]));
        assert(unsigned(s) == s);
    }
    if s.len() == 0 {
        assert(unsigned(signed) == signed);
        assert(!is_digit(signed[0]));
    }
}

/// A name is that of a table where it ends in `.sst` behind something else. Its
/// number is what stands between `sst_` and `.sst`; without these, or without a
/// number between them, it has none.
pub proof fn law_table_is_known_by_its_name(stem: Seq<u8>, name: Seq<u8>, number: Seq<u8>)
    ensures
        ({
            let suffix = seq![46u8, 115u8, 115u8, 116u8];
            let prefix = seq![115u8, 115u8, 116u8, 95u8];
            &&& is_table(stem + suffix) <==> stem.len() > 0
            &&& is_table(name) ==> name.len() > 4 && name.skip(name.len() - 4) == suffix
            &&& table_id(prefix + number + suffix) == number_in(number)
            &&& table_id(name) is Some ==> is_table(name) && name.len() > 8 && name.take(4)
                == prefix && table_id(name) == number_in(name.subrange(4, name.len() - 4))
        }),
{
    let suffix = seq![46u8, 115u8, 115u8, 116u8];
    let prefix = seq![115u8, 115u8, 116u8, 95u8];
    let plain = stem + suffix;
    assert(plain.skip(plain.len() - 4) =~= suffix);
    let full = prefix + number + suffix;
    assert(full.skip(full.len() - 4) =~= suffix);
    assert(full.take(4) =~= prefix);
    assert(full.subrange(4, full.len() - 4) =~= number);
    if table_id(name) is Some && name.len() == 8 {
        assert(name.subrange(4, 4).len() == 0);
        law_number_is_what_digits_spell(name.subrange(4, 4));
    }
}

/// A table with a number is newer than one without. Where both numbers are the
/// same, or there are none, the name that comes later is newer.
pub proof fn law_names_decide_between_equals(a: Seq<u8>, b: Seq<u8>)
    ensures
        table_id(a) is Some && table_id(b) is None ==> newer(a, b) && !newer(b, a),
        table_id(a) == table_id(b) ==> (newer(a, b) <==> order::precedes(b, a)),
{
}

/// The number of a table file is read back from its name.
pub proof fn law_table_name_roundtrip(id: u64)
    ensures
        is_table(table_name(id as nat)),
        table_id(table_name(id as nat)) == Some(id as nat),
{
    let digits = text::digits(id as nat);
    let middle = padded(digits);
    let name = table_name(id as nat);
    lemma_digits(id as nat);
    assert(name.skip(name.len() - 4) =~= name_suffix());
    assert(name.take(4) =~= name_prefix());
    assert(name.subrange(4, name.len() - 4) =~= middle);
    if digits.len() < 6 {
        lemma_zeros((6 - digits.len()) as nat, digits);
    }
    assert forall|i: int| 0 <= i < middle.len() implies is_digit(#[trigger] middle[i]) by {
        if digits.len() < 6 && i >= 6 - digits.len() {
            assert(middle[i] == digits[i - (6 - digits.len())]);
        }
    }
    assert(is_digit(middle[0]));
}

/// The name of the table file with a number.
pub fn make_table_name(id: u64) -> (name: Vec<u8>)
    ensures
        name@ == table_name(id as nat),
{
    let mut name: Vec<u8> = Vec::new();
    name.push(115);
    name.push(115);
    name.push(116);
    name.push(95);
    let mut digits: Vec<u8> = Vec::new();
    put_digits(&mut digits, id);
    assert(digits@ =~= text::digits(id as nat));
    let ghost head = name@;
    let mut i: usize = digits.len();
    while i < 6
        invariant
            digits@.len() <= i,
            i <= 6 || i == digits@.len(),
            name@ == head + Seq::new((i - digits@.len()) as nat, |j: int| 48u8),
        decreases 6 - i,
    {
        name.push(48);
        i = i + 1;
        assert(name@ =~= head + Seq::new((i - digits@.len()) as nat, |j: int| 48u8));
    }
    name.append(&mut digits);
    name.push(46);
    name.push(115);
    name.push(115);
    name.push(116);
    assert(name@ =~= table_name(id as nat));
    name
}

proof fn lemma_prefix_value(s: Seq<u8>, n: int)
    requires
        0 <= n <= s.len(),
        forall|i: int| 0 <= i < s.len() ==> is_digit(#[trigger] s[i]),
    ensures
        digits_value(s.take(n)) <= digits_value(s),
    decreases s.len() - n,
{
    if n < s.len() {
        lemma_prefix_value(s, n + 1);
        assert(s.take(n + 1).drop_last() =~= s.take(n));
        assert(is_digit(s[n]));
    } else {
        assert(s.take(n) =~= s);
    }
}

/// Reads a number in decimal.
pub fn parse_number(s: &[u8]) -> (number: Option<u64>)
    ensures
        match number {
            Some(x) => number_in(s@) == Some(x as nat),
            None => number_in(s@) is None,
        },
{
    let start: usize = if s.len() > 1 && s[0] == 43 {
        1
    } else {
        0
    };
    let ghost d = s@.skip(start as int);
    assert(s@.skip(0) =~= s@);
    if s.len() == start {
        return None;
    }
    let mut x: u64 = 0;
    let mut i: usize = start;
    assert(d.take(0) =~= Seq::empty());
    while i < s.len()
        invariant
            start <= i <= s@.len(),
            d == s@.skip(start as int),
            d == unsigned(s@),
            x == digits_value(d.take(i - start)),
            forall|j: int| 0 <= j < i - start ==> is_digit(#[trigger] d[j]),
        decreases s@.len() - i,
    {
        let b: u8 = s[i];
        assert(d[i - start] == b);
        if b < 48 || b > 57 {
            assert(!is_digit(d[i - start]));
            return None;
        }
        let low: u64 = (b - 48) as u64;
        proof {
            let next = d.take(i - start + 1);
            assert(next.drop_last() =~= d.take(i - start));
            assert(digits_value(next) == 10 * x + low);
            if all_digits(d) {
                lemma_prefix_value(d, i - start + 1);
            }
        }
        if x > u64::MAX / 10 {
            return None;
        }
        if low > u64::MAX - 10 * x {
            return None;
        }
        x = 10 * x + low;
        i = i + 1;
    }
    assert(d.take(i - start) =~= d);
    Some(x)
}

/// Whether a file is a table.
pub fn is_table_name(name: &[u8]) -> (yes: bool)
    ensures
        yes == is_table(name@),
{
    if name.len() <= 4 {
        return false;
    }
    let n: usize = name.len();
    let yes: bool = name[n - 4] == 46 && name[n - 3] == 115 && name[n - 2] == 115 && name[n - 1]
        == 116;
    proof {
        let tail = name@.skip(n - 4);
        if yes {
            assert(tail =~= name_suffix());
        } else {
            assert(tail[0] == name@[n - 4] && tail[1] == name@[n - 3] && tail[2] == name@[n - 2]
                && tail[3] == name@[n - 1]);
        }
    }
    yes
}

/// The number of a table file, where its name has one.
pub fn number_of_table(name: &[u8]) -> (id: Option<u64>)
    ensures
        match id {
            Some(x) => table_id(name@) == Some(x as nat),
            None => table_id(name@) is None,
        },
{
    if !is_table_name(name) || name.len() < 8 {
        return None;
    }
    let yes: bool = name[0] == 115 && name[1] == 115 && name[2] == 116 && name[3] == 95;
    proof {
        let head = name@.take(4);
        if yes {
            assert(head =~= name_prefix());
        } else {
            assert(head[0] == name@[0] && head[1] == name@[1] && head[2] == name@[2] && head[3]
                == name@[3]);
        }
    }
    if !yes {
        return None;
    }
    parse_number(slice_subrange(name, 4, name.len() - 4))
}

/// Whether table `a` is newer than table `b`.
pub fn is_newer(a: &[u8], b: &[u8]) -> (yes: bool)
    ensures
        yes == newer(a@, b@),
{
    match (number_of_table(a), number_of_table(b)) {
        (Some(x), Some(y)) => x > y || (x == y && is_before(b, a)),
        (Some(_), None) => true,
        (None, Some(_)) => false,
        (None, None) => is_before(b, a),
    }
}

/// Table names in order, the newest first.
pub open spec fn newest_first(names: Seq<Seq<u8>>) -> bool {
    forall|i: int, j: int|
        0 <= i < j < names.len() ==> !newer(#[trigger] names[j], #[trigger] names[i])
}

/// Names by their views.
pub open spec fn names_view(names: Seq<Vec<u8>>) -> Seq<Seq<u8>> {
    names.map_values(|name: Vec<u8>| name@)
}

/// Names stand for themselves one by one, in their order.
pub proof fn law_names_stand_for_themselves(names: Seq<Vec<u8>>, i: int)
    ensures
        names_view(names).len() == names.len(),
        0 <= i < names.len() ==> names_view(names)[i] == names[i]@,
{
}

/// The names among `names` that are tables.
pub open spec fn tables_among(names: Seq<Seq<u8>>) -> Seq<Seq<u8>>
    decreases names.len(),
{
    if names.len() == 0 {
        Seq::empty()
    } else if is_table(names.last()) {
        tables_among(names.drop_last()).push(names.last())
    } else {
        tables_among(names.drop_last())
    }
}

/// The highest number of a table, or 0 where none has one.
pub open spec fn highest_id(names: Seq<Seq<u8>>) -> nat
    decreases names.len(),
{
    if names.len() == 0 {
        0
    } else {
        let before = highest_id(names.drop_last());
        match table_id(names.last()) {
            Some(id) => if id > before {
                id
            } else {
                before
            },
            None => before,
        }
    }
}

/// The tables among names are those names that are tables, each as often and in
/// the order in which it stands there.
pub proof fn law_tables_are_picked_out(names: Seq<Seq<u8>>)
    ensures
        tables_among(names) == names.filter(|name: Seq<u8>| is_table(name)),
    decreases names.len(),
{
    reveal(Seq::filter);
    if names.len() > 0 {
        law_tables_are_picked_out(names.drop_last());
    }
}

/// The highest number is that of one of the tables, and no table has a higher
/// one. Where no table has a number it is 0.
pub proof fn law_highest_number_is_one_of_them(names: Seq<Seq<u8>>)
    ensures
        forall|i: int|
            0 <= i < names.len() ==> (table_id(#[trigger] names[i]) matches Some(id) ==> id
                <= highest_id(names)),
        highest_id(names) == 0 || exists|i: int|
            0 <= i < names.len() && table_id(#[trigger] names[i]) == Some(highest_id(names)),
    decreases names.len(),
{
    lemma_highest_id(names);
    if names.len() > 0 {
        let front = names.drop_last();
        law_highest_number_is_one_of_them(front);
        if highest_id(names) == highest_id(front) && highest_id(names) != 0 {
            let i = choose|i: int|
                0 <= i < front.len() && table_id(#[trigger] front[i]) == Some(highest_id(front));
            assert(names[i] == front[i]);
        } else if highest_id(names) != 0 {
            assert(names[names.len() - 1] == names.last());
        }
    }
}

/// In a list with the newest first the numbers go down, and tables without a
/// number come last.
pub proof fn law_newest_first_by_number(names: Seq<Seq<u8>>, i: int, j: int)
    requires
        newest_first(names),
        0 <= i < j < names.len(),
    ensures
        table_id(names[j]) matches Some(y) ==> (table_id(names[i]) matches Some(x) && x >= y),
        table_id(names[i]) == table_id(names[j]) ==> !order::precedes(names[i], names[j]),
{
    assert(!newer(names[j], names[i]));
}

pub proof fn lemma_highest_id(names: Seq<Seq<u8>>)
    ensures
        forall|i: int|
            0 <= i < names.len() ==> (table_id(#[trigger] names[i]) matches Some(id) ==> id
                <= highest_id(names)),
    decreases names.len(),
{
    if names.len() > 0 {
        let front = names.drop_last();
        lemma_highest_id(front);
        assert forall|i: int| 0 <= i < names.len() implies (table_id(
            #[trigger] names[i],
        ) matches Some(id) ==> id <= highest_id(names)) by {
            if i < front.len() {
                assert(front[i] == names[i]);
            }
        }
    }
}

/// The order of tables is determined by which tables there are: two lists of
/// the same different names, both newest first, are the same list.
pub proof fn law_newest_first_unique(a: Seq<Seq<u8>>, b: Seq<Seq<u8>>)
    requires
        newest_first(a),
        newest_first(b),
        a.no_duplicates(),
        a.to_multiset() == b.to_multiset(),
    ensures
        a == b,
    decreases a.len(),
{
    broadcast use vstd::seq_lib::group_to_multiset_ensures;

    assert(a.len() == a.to_multiset().len());
    assert(b.len() == b.to_multiset().len());
    if a.len() == 0 {
        assert(a =~= b);
    } else {
        assert(a.to_multiset().count(a[0]) > 0) by {
            assert(a.contains(a[0]));
        }
        assert(b.to_multiset().count(b[0]) > 0) by {
            assert(b.contains(b[0]));
        }
        assert(b.contains(a[0]));
        assert(a.contains(b[0]));
        let i = choose|i: int| 0 <= i < b.len() && b[i] == a[0];
        let j = choose|j: int| 0 <= j < a.len() && a[j] == b[0];
        lemma_newer_total(a[0], b[0]);
        if a[0] != b[0] {
            assert(!newer(b[i], b[0]));
            assert(!newer(a[j], a[0]));
        }
        let ra = a.remove(0);
        let rb = b.remove(0);
        assert(ra.to_multiset() =~= a.to_multiset().remove(a[0]));
        assert(rb.to_multiset() =~= b.to_multiset().remove(b[0]));
        assert forall|x: int, y: int| 0 <= x < y < ra.len() implies !newer(
            #[trigger] ra[y],
            #[trigger] ra[x],
        ) by {
            assert(ra[x] == a[x + 1] && ra[y] == a[y + 1]);
        }
        assert forall|x: int, y: int| 0 <= x < y < rb.len() implies !newer(
            #[trigger] rb[y],
            #[trigger] rb[x],
        ) by {
            assert(rb[x] == b[x + 1] && rb[y] == b[y + 1]);
        }
        law_newest_first_unique(ra, rb);
        assert(a =~= seq![a[0]] + ra);
        assert(b =~= seq![b[0]] + rb);
    }
}

/// Puts a name in its place among names that are newest first.
pub fn insert_by_age(names: &mut Vec<Vec<u8>>, name: Vec<u8>)
    requires
        newest_first(names_view(old(names)@)),
    ensures
        newest_first(names_view(final(names)@)),
        names_view(final(names)@).to_multiset() == names_view(old(names)@).to_multiset().insert(name@),
{
    let ghost before = names_view(names@);
    let mut at: usize = 0;
    while at < names.len() && !is_newer(&name, &names[at])
        invariant
            at <= names@.len(),
            names@ == old(names)@,
            forall|i: int| 0 <= i < at ==> !newer(name@, #[trigger] names_view(names@)[i]),
        decreases names@.len() - at,
    {
        at = at + 1;
    }
    let ghost new = name@;
    names.insert(at, name);
    proof {
        broadcast use vstd::seq_lib::group_to_multiset_ensures;

        let after = names_view(names@);
        assert(after =~= before.insert(at as int, new));
        assert forall|i: int, j: int| 0 <= i < j < after.len() implies !newer(
            #[trigger] after[j],
            #[trigger] after[i],
        ) by {
            if j < at {
                assert(after[i] == before[i] && after[j] == before[j]);
            } else if j == at {
                assert(after[i] == before[i]);
            } else if i == at {
                assert(after[j] == before[j - 1]);
                assert(newer(new, before[at as int]));
                if newer(before[j - 1], new) {
                    if j - 1 == at {
                        lemma_newer_asymmetric(new, before[at as int]);
                    } else {
                        lemma_newer_transitive(before[j - 1], new, before[at as int]);
                    }
                }
            } else if i < at {
                assert(after[i] == before[i] && after[j] == before[j - 1]);
            } else {
                assert(after[i] == before[i - 1] && after[j] == before[j - 1]);
            }
        }
    }
}

} // verus!
