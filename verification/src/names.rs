//! Names of the files that the program reads and writes.
use vstd::prelude::*;
use crate::text::{chars_of, push_char};

verus! {

/// `s` with every space replaced by an underscore.
pub open spec fn sanitize(s: Seq<char>) -> Seq<char> {
    s.map_values(|c: char| if c == ' ' { '_' } else { c })
}

/// The character of a decimal digit.
pub open spec fn digit_char(d: nat) -> char {
    ((48 + d) as u32) as char
}

/// The decimal digits of `n`, most significant first, without leading zeros.
pub open spec fn decimal_digits(n: nat) -> Seq<char>
    decreases n,
{
    if n < 10 {
        seq![digit_char(n)]
    } else {
        decimal_digits(n / 10).push(digit_char(n % 10))
    }
}

/// `n` written in decimal, with a minus sign when negative (as `{}` formats an integer).
pub open spec fn decimal(n: int) -> Seq<char> {
    if n < 0 {
        seq!['-'] + decimal_digits((-n) as nat)
    } else {
        decimal_digits(n as nat)
    }
}

/// The file name of the pressure distribution of an airfoil at an angle of attack,
/// the angle given in whole degrees.
pub open spec fn cp_file_name_spec(name: Seq<char>, alpha: int) -> Seq<char> {
    sanitize(name) + "_alpha"@ + decimal(alpha) + "_cp.csv"@
}

/// The file name of the lift polar of an airfoil.
pub open spec fn cl_file_name_spec(name: Seq<char>) -> Seq<char> {
    sanitize(name) + "_cl.csv"@
}

/// Index of the last occurrence of `c` in `s`, or -1.
pub open spec fn last_index_of(s: Seq<char>, c: char) -> int
    decreases s.len(),
{
    if s.len() == 0 {
        -1
    } else if s.last() == c {
        s.len() - 1
    } else {
        last_index_of(s.drop_last(), c)
    }
}

/// The extension of a file name (`Path::extension`): what follows the last `.`,
/// except that `..` and a name whose only `.` is its first character have none.
pub open spec fn extension(s: Seq<char>) -> Option<Seq<char>> {
    let k = last_index_of(s, '.');
    if s == ".."@ || k <= 0 {
        None
    } else {
        Some(s.skip(k + 1))
    }
}

pub proof fn lemma_last_index_of(s: Seq<char>, c: char)
    ensures
        -1 <= last_index_of(s, c) < s.len(),
        last_index_of(s, c) >= 0 ==> s[last_index_of(s, c)] == c,
        forall|i: int| last_index_of(s, c) < i < s.len() ==> s[i] != c,
    decreases s.len(),
{
    if s.len() > 0 && s.last() != c {
        lemma_last_index_of(s.drop_last(), c);
        assert forall|i: int| last_index_of(s, c) < i < s.len() implies s[i] != c by {
            if i < s.len() - 1 {
                assert(s[i] == s.drop_last()[i]);
            }
        }
    }
}

/// A sanitized name is as long as the name, holds no space, and keeps every other
/// character in place.
pub proof fn lemma_sanitize(s: Seq<char>)
    ensures
        sanitize(s).len() == s.len(),
        forall|i: int| 0 <= i < s.len() ==> #[trigger] sanitize(s)[i] != ' ',
        forall|i: int| 0 <= i < s.len() && s[i] != ' ' ==> #[trigger] sanitize(s)[i] == s[i],
{
}

pub proof fn lemma_decimal_digits_shape(n: nat)
    ensures
        decimal_digits(n).len() >= 1,
        n >= 10 ==> decimal_digits(n).len() >= 2,
        forall|i: int| 0 <= i < decimal_digits(n).len() ==> #[trigger] decimal_digits(n)[i] != '-',
    decreases n,
{
    if n >= 10 {
        lemma_decimal_digits_shape(n / 10);
        let d = decimal_digits(n / 10);
        assert forall|i: int| 0 <= i < decimal_digits(n).len() implies #[trigger] decimal_digits(
            n,
        )[i] != '-' by {
            if i < d.len() {
                assert(decimal_digits(n)[i] == d[i]);
            }
        }
    }
}

/// Different numbers have different decimal digits.
pub proof fn lemma_decimal_digits_injective(m: nat, n: nat)
    requires
        decimal_digits(m) == decimal_digits(n),
    ensures
        m == n,
    decreases m,
{
    lemma_decimal_digits_shape(m);
    lemma_decimal_digits_shape(n);
    if m >= 10 && n >= 10 {
        let dm = decimal_digits(m);
        assert(dm.last() == digit_char(m % 10));
        assert(decimal_digits(n).last() == digit_char(n % 10));
        assert((48 + m % 10) as u32 == (48 + n % 10) as u32);
        assert(decimal_digits(m / 10) =~= dm.drop_last());
        assert(decimal_digits(n / 10) =~= decimal_digits(n).drop_last());
        lemma_decimal_digits_injective(m / 10, n / 10);
    } else if m < 10 && n < 10 {
        assert(decimal_digits(m)[0] == digit_char(m));
        assert(decimal_digits(n)[0] == digit_char(n));
    }
}

/// Different integers are written differently.
pub proof fn lemma_decimal_injective(a: int, b: int)
    requires
        decimal(a) == decimal(b),
    ensures
        a == b,
{
    if a < 0 && b < 0 {
        assert(decimal_digits((-a) as nat) =~= decimal(a).drop_first());
        assert(decimal_digits((-b) as nat) =~= decimal(b).drop_first());
        lemma_decimal_digits_injective((-a) as nat, (-b) as nat);
    } else if a >= 0 && b >= 0 {
        lemma_decimal_digits_injective(a as nat, b as nat);
    } else if a < 0 {
        lemma_decimal_digits_shape(b as nat);
        assert(decimal(a)[0] == '-');
        assert(decimal(b)[0] != '-');
    } else {
        lemma_decimal_digits_shape(a as nat);
        assert(decimal(b)[0] == '-');
        assert(decimal(a)[0] != '-');
    }
}

/// The result files of one airfoil at two different angles of attack have different
/// names, and no pressure distribution file is named like a lift polar file.
pub proof fn lemma_result_file_names_distinct(name: Seq<char>, other: Seq<char>, a: int, b: int)
    ensures
        a != b ==> cp_file_name_spec(name, a) != cp_file_name_spec(name, b),
        cp_file_name_spec(name, a) != cl_file_name_spec(other),
{
    reveal_strlit("_alpha");
    reveal_strlit("_cp.csv");
    reveal_strlit("_cl.csv");
    let x = cp_file_name_spec(name, a);
    let y = cl_file_name_spec(other);
    assert(x[x.len() - 5] == 'p');
    assert(y[y.len() - 5] == 'l');
    if a != b && x == cp_file_name_spec(name, b) {
        let z = cp_file_name_spec(name, b);
        let pre = sanitize(name) + "_alpha"@;
        let sa = decimal(a);
        let sb = decimal(b);
        assert(sa.len() == sb.len());
        assert(sa =~= x.subrange(pre.len() as int, (pre.len() + sa.len()) as int));
        assert(sb =~= z.subrange(pre.len() as int, (pre.len() + sb.len()) as int));
        lemma_decimal_injective(a, b);
    }
}

/// The number that a string of decimal digits denotes.
pub open spec fn digits_value(s: Seq<char>) -> int
    decreases s.len(),
{
    if s.len() == 0 {
        0
    } else {
        digits_value(s.drop_last()) * 10 + ((s.last() as u32) - 48)
    }
}

/// A character `0` to `9`.
pub open spec fn is_decimal_char(c: char) -> bool {
    48 <= (c as u32) <= 57
}

pub proof fn lemma_decimal_digits_value(n: nat)
    ensures
        decimal_digits(n).len() >= 1,
        forall|i: int|
            0 <= i < decimal_digits(n).len() ==> is_decimal_char(#[trigger] decimal_digits(n)[i]),
        digits_value(decimal_digits(n)) == n,
        decimal_digits(n).len() > 1 ==> decimal_digits(n)[0] != '0',
        n >= 1 ==> decimal_digits(n)[0] != '0',
    decreases n,
{
    let d = decimal_digits(n);
    vstd::utf8::char_u32_cast('0', 48u32);
    if n < 10 {
        vstd::utf8::char_u32_cast(d[0], (48 + n) as u32);
        assert(d[0] as u32 == (48 + n) as u32);
        assert(d.drop_last() =~= Seq::<char>::empty());
        assert(d.last() == d[0]);
        assert(digits_value(d.drop_last()) == 0);
        assert(digits_value(d) == n);
    } else {
        let e = decimal_digits(n / 10);
        lemma_decimal_digits_value(n / 10);
        let c = digit_char(n % 10);
        vstd::utf8::char_u32_cast(c, (48 + n % 10) as u32);
        assert(c as u32 == (48 + n % 10) as u32);
        assert(d.drop_last() =~= e);
        assert(d[0] == e[0]);
        assert forall|i: int| 0 <= i < d.len() implies is_decimal_char(#[trigger] d[i]) by {
            if i < e.len() {
                assert(d[i] == e[i]);
            }
        }
        assert(digits_value(d) == (n / 10) * 10 + n % 10);
    }
}

/// `decimal(n)` is a minus sign exactly for negative `n`, followed by decimal digits
/// without leading zeros whose value is the magnitude of `n`.
pub proof fn lemma_decimal(n: int)
    ensures
        decimal(n).len() >= 1,
        (decimal(n)[0] == '-') == (n < 0),
        n < 0 ==> {
            &&& decimal(n).len() >= 2
            &&& forall|i: int| 1 <= i < decimal(n).len() ==> is_decimal_char(#[trigger] decimal(n)[i])
            &&& digits_value(decimal(n).drop_first()) == -n
            &&& decimal(n)[1] != '0'
        },
        n >= 0 ==> {
            &&& forall|i: int| 0 <= i < decimal(n).len() ==> is_decimal_char(#[trigger] decimal(n)[i])
            &&& digits_value(decimal(n)) == n
            &&& (decimal(n).len() > 1 ==> decimal(n)[0] != '0')
        },
{
    let d = decimal(n);
    vstd::utf8::char_u32_cast('-', 45u32);
    if n < 0 {
        let e = decimal_digits((-n) as nat);
        lemma_decimal_digits_value((-n) as nat);
        assert(d.drop_first() =~= e);
        assert forall|i: int| 1 <= i < d.len() implies is_decimal_char(#[trigger] d[i]) by {
            assert(d[i] == e[i - 1]);
        }
        assert(d[1] == e[0]);
    } else {
        lemma_decimal_digits_value(n as nat);
        if d[0] == '-' {
            assert(is_decimal_char(d[0]));
        }
    }
}

/// Every character of `decimal(n)` is a digit or a minus sign.
pub proof fn lemma_decimal_chars(n: int)
    ensures
        forall|i: int|
            0 <= i < decimal(n).len() ==> is_decimal_char(#[trigger] decimal(n)[i]) || decimal(n)[i]
                == '-',
{
    lemma_decimal(n);
}

/// The pressure-distribution file name is the whole name, each space made an
/// underscore and every other character kept, then `_alpha`, the angle in decimal,
/// and `_cp.csv`.
pub proof fn lemma_cp_file_name(name: Seq<char>, alpha: int)
    ensures
        ({
            let r = cp_file_name_spec(name, alpha);
            let n = name.len() as int;
            let k = decimal(alpha).len() as int;
            &&& r.len() == n + 6 + k + 7
            &&& forall|i: int|
                0 <= i < n ==> #[trigger] r[i] == (if name[i] == ' ' {
                    '_'
                } else {
                    name[i]
                })
            &&& r.subrange(n, n + 6) == "_alpha"@
            &&& r.subrange(n + 6, n + 6 + k) == decimal(alpha)
            &&& r.subrange(n + 6 + k, r.len() as int) == "_cp.csv"@
        }),
{
    reveal_strlit("_alpha");
    reveal_strlit("_cp.csv");
    let r = cp_file_name_spec(name, alpha);
    let n = name.len() as int;
    let k = decimal(alpha).len() as int;
    assert(r.subrange(n, n + 6) =~= "_alpha"@);
    assert(r.subrange(n + 6, n + 6 + k) =~= decimal(alpha));
    assert(r.subrange(n + 6 + k, r.len() as int) =~= "_cp.csv"@);
}

/// The lift-polar file name is the whole name, each space made an underscore and every
/// other character kept, then `_cl.csv`.
pub proof fn lemma_cl_file_name(name: Seq<char>)
    ensures
        ({
            let r = cl_file_name_spec(name);
            let n = name.len() as int;
            &&& r.len() == n + 7
            &&& forall|i: int|
                0 <= i < n ==> #[trigger] r[i] == (if name[i] == ' ' {
                    '_'
                } else {
                    name[i]
                })
            &&& r.subrange(n, r.len() as int) == "_cl.csv"@
        }),
{
    reveal_strlit("_cl.csv");
    let r = cl_file_name_spec(name);
    assert(r.subrange(name.len() as int, r.len() as int) =~= "_cl.csv"@);
}

/// Two names are told apart by a file name unless they differ only in spaces against
/// underscores.
pub open spec fn same_but_spaces(a: Seq<char>, b: Seq<char>) -> bool {
    &&& a.len() == b.len()
    &&& forall|i: int|
        0 <= i < a.len() ==> #[trigger] a[i] == b[i] || ((a[i] == ' ' || a[i] == '_') && (b[i]
            == ' ' || b[i] == '_'))
}

/// Two lift-polar files have the same name only for names that differ at most in
/// spaces against underscores.
pub proof fn lemma_cl_file_name_injective(n1: Seq<char>, n2: Seq<char>)
    ensures
        cl_file_name_spec(n1) == cl_file_name_spec(n2) ==> same_but_spaces(n1, n2),
{
    lemma_cl_file_name(n1);
    lemma_cl_file_name(n2);
    let r = cl_file_name_spec(n1);
    if r == cl_file_name_spec(n2) {
        assert forall|i: int| 0 <= i < n1.len() implies #[trigger] n1[i] == n2[i] || ((n1[i]
            == ' ' || n1[i] == '_') && (n2[i] == ' ' || n2[i] == '_')) by {
            assert(r[i] == cl_file_name_spec(n2)[i]);
        }
    }
}

/// Two pressure-distribution files have the same name only for the same angle and
/// names that differ at most in spaces against underscores.
pub proof fn lemma_cp_file_name_injective(n1: Seq<char>, a1: int, n2: Seq<char>, a2: int)
    ensures
        cp_file_name_spec(n1, a1) == cp_file_name_spec(n2, a2) ==> a1 == a2 && same_but_spaces(
            n1,
            n2,
        ),
{
    reveal_strlit("_alpha");
    lemma_cp_file_name(n1, a1);
    lemma_cp_file_name(n2, a2);
    lemma_decimal_chars(a1);
    lemma_decimal_chars(a2);
    let r = cp_file_name_spec(n1, a1);
    let d1 = decimal(a1);
    let d2 = decimal(a2);
    let l1 = n1.len() as int;
    let l2 = n2.len() as int;
    if r == cp_file_name_spec(n2, a2) {
        vstd::utf8::char_u32_cast('a', 97u32);
        vstd::utf8::char_u32_cast('-', 45u32);
        // the character just before the angle is the `a` of `_alpha`, which no
        // decimal holds, so the two angles take the same room
        if d1.len() < d2.len() {
            let p = l1 + 5;
            assert(r[p] == r.subrange(l1, l1 + 6)[5]);
            assert(r[p] == 'a');
            assert(r[p] == r.subrange(l2 + 6, l2 + 6 + d2.len())[p - l2 - 6]);
            assert(d2[p - l2 - 6] == 'a');
            assert(false);
        }
        if d2.len() < d1.len() {
            let p = l2 + 5;
            assert(r[p] == r.subrange(l2, l2 + 6)[5]);
            assert(r[p] == 'a');
            assert(r[p] == r.subrange(l1 + 6, l1 + 6 + d1.len())[p - l1 - 6]);
            assert(d1[p - l1 - 6] == 'a');
            assert(false);
        }
        assert(l1 == l2);
        assert(d1 =~= d2);
        lemma_decimal_injective(a1, a2);
        assert forall|i: int| 0 <= i < n1.len() implies #[trigger] n1[i] == n2[i] || ((n1[i]
            == ' ' || n1[i] == '_') && (n2[i] == ' ' || n2[i] == '_')) by {
            assert(r[i] == cp_file_name_spec(n2, a2)[i]);
        }
    }
}

/// A file name has the extension `dat` exactly when it ends in `.dat` and something
/// comes before that `.`.
pub proof fn lemma_dat_extension(s: Seq<char>)
    ensures
        (extension(s) == Some("dat"@)) <==> (s.len() >= 5 && s[s.len() - 4] == '.' && s[s.len()
            - 3] == 'd' && s[s.len() - 2] == 'a' && s[s.len() - 1] == 't'),
{
    reveal_strlit("dat");
    reveal_strlit("..");
    lemma_last_index_of(s, '.');
    let n = s.len() as int;
    let k = last_index_of(s, '.');
    if n >= 5 && s[n - 4] == '.' && s[n - 3] == 'd' && s[n - 2] == 'a' && s[n - 1] == 't' {
        assert(k == n - 4) by {
            if k < n - 4 {
                assert(s[n - 4] != '.');
            }
        }
        assert(s.skip(k + 1) =~= "dat"@);
        assert(s != ".."@) by {
            assert(s.len() != ".."@.len());
        }
    } else if extension(s) == Some("dat"@) {
        assert(s.skip(k + 1) == "dat"@);
        assert(s.skip(k + 1).len() == 3);
        assert(s[k + 1] == s.skip(k + 1)[0]);
        assert(s[k + 2] == s.skip(k + 1)[1]);
        assert(s[k + 3] == s.skip(k + 1)[2]);
    }
}

/// The character of the decimal digit `d`.
fn digit_to_char(d: u64) -> (c: char)
    requires
        d < 10,
    ensures
        c == digit_char(d as nat),
{
    match d {
        0 => '0',
        1 => '1',
        2 => '2',
        3 => '3',
        4 => '4',
        5 => '5',
        6 => '6',
        7 => '7',
        8 => '8',
        _ => '9',
    }
}

/// Appends `n` in decimal to `s`.
fn push_decimal(s: &mut String, n: i32)
    ensures
        final(s)@ == old(s)@ + decimal(n as int),
{
    if n < 0 {
        push_char(s, '-');
    }
    let ghost pre = s@;
    let a: i64 = n as i64;
    let mut m: u64 = if a < 0 { (-a) as u64 } else { a as u64 };
    let ghost total = m as nat;
    let mut rev: Vec<char> = Vec::new();
    while m >= 10
        invariant
            decimal_digits(total) == decimal_digits(m as nat) + rev@.reverse(),
        decreases m,
    {
        let ghost old_rev = rev@;
        let c = digit_to_char(m % 10);
        rev.push(c);
        proof {
            assert(rev@.reverse() =~= seq![c] + old_rev.reverse());
            assert(decimal_digits(m as nat) == decimal_digits((m / 10) as nat).push(c));
            assert(decimal_digits((m / 10) as nat).push(c) + old_rev.reverse()
                =~= decimal_digits((m / 10) as nat) + (seq![c] + old_rev.reverse()));
        }
        m = m / 10;
    }
    push_char(s, digit_to_char(m));
    let mut i: usize = rev.len();
    while i > 0
        invariant
            i <= rev.len(),
            s@ == pre + seq![digit_char(m as nat)] + rev@.reverse().take(rev.len() - i),
        decreases i,
    {
        i = i - 1;
        push_char(s, rev[i]);
        assert(rev@.reverse().take(rev.len() - i) =~= rev@.reverse().take(rev.len() - i - 1).push(
            rev@[i as int],
        ));
    }
    assert(rev@.reverse().take(rev.len() as int) =~= rev@.reverse());
    assert(decimal_digits(m as nat) =~= seq![digit_char(m as nat)]);
    if n < 0 {
        assert(s@ =~= old(s)@ + decimal(n as int));
    } else {
        assert(s@ =~= old(s)@ + decimal(n as int));
    }
}

/// `name` made fit for a file name: every space replaced by an underscore.
pub fn safe_name(name: &str) -> (r: String)
    ensures
        r@ == sanitize(name@),
{
    let v = chars_of(name);
    let mut r = String::new();
    let mut i: usize = 0;
    while i < v.len()
        invariant
            i <= v.len(),
            v@ == name@,
            r@ == sanitize(v@.take(i as int)),
        decreases v.len() - i,
    {
        let c = if v[i] == ' ' {
            '_'
        } else {
            v[i]
        };
        push_char(&mut r, c);
        assert(sanitize(v@.take(i + 1)) =~= sanitize(v@.take(i as int)).push(c));
        i = i + 1;
    }
    assert(v@.take(v.len() as int) =~= v@);
    r
}

/// The name of the file that holds the pressure distribution of airfoil `name`
/// at the angle of attack `alpha`, in whole degrees: `{name}_alpha{alpha}_cp.csv`,
/// spaces of the name turned into underscores.
pub fn cp_file_name(name: &str, alpha: i32) -> (r: String)
    ensures
        r@ == cp_file_name_spec(name@, alpha as int),
{
    let mut r = safe_name(name);
    r.append("_alpha");
    push_decimal(&mut r, alpha);
    r.append("_cp.csv");
    r
}

/// The name of the file that holds the lift polar of airfoil `name`:
/// `{name}_cl.csv`, spaces of the name turned into underscores.
pub fn cl_file_name(name: &str) -> (r: String)
    ensures
        r@ == cl_file_name_spec(name@),
{
    let mut r = safe_name(name);
    r.append("_cl.csv");
    r
}

/// Whether a file name has the extension `dat`, in the sense of `Path::extension`.
pub fn is_dat_file_name(file_name: &str) -> (r: bool)
    ensures
        r == (extension(file_name@) == Some("dat"@)),
{
    let v = chars_of(file_name);
    let n = v.len();
    proof {
        reveal_strlit("dat");
        reveal_strlit("..");
        lemma_last_index_of(v@, '.');
    }
    if n >= 5 && v[n - 4] == '.' && v[n - 3] == 'd' && v[n - 2] == 'a' && v[n - 1] == 't' {
        proof {
            let k = last_index_of(v@, '.');
            assert(k == n - 4) by {
                if k < n - 4 {
                    assert(v@[n - 4] != '.');
                }
            }
            assert(v@.skip(k + 1) =~= "dat"@);
            assert(v@ != ".."@) by {
                assert(v@.len() != ".."@.len());
            }
        }
        true
    } else {
        proof {
            let k = last_index_of(v@, '.');
            if extension(v@) == Some("dat"@) {
                assert(v@.skip(k + 1) == "dat"@);
                assert(v@.skip(k + 1).len() == 3);
                assert(v@[k + 1] == v@.skip(k + 1)[0]);
                assert(v@[k + 2] == v@.skip(k + 1)[1]);
                assert(v@[k + 3] == v@.skip(k + 1)[2]);
                assert(false);
            }
        }
        false
    }
}

} // verus!
