//! A lossless wire form for entries: each entry becomes one string, a
//! variant tag followed by the fields, every number as twenty decimal digits
//! and every string length-prefixed. Decoding is proved to invert encoding,
//! so the tag and the fields round-trip exactly.

use vstd::prelude::*;

use crate::types::spec_modified;
use crate::types::EntryModel;
use crate::types::FileEntry;

verus! {

/// The decimal digit character for a value below ten.
pub open spec fn digit_char(d: int) -> char {
    if d == 0 {
        '0'
    } else if d == 1 {
        '1'
    } else if d == 2 {
        '2'
    } else if d == 3 {
        '3'
    } else if d == 4 {
        '4'
    } else if d == 5 {
        '5'
    } else if d == 6 {
        '6'
    } else if d == 7 {
        '7'
    } else if d == 8 {
        '8'
    } else {
        '9'
    }
}

/// The value of a decimal digit character.
pub open spec fn digit_val(c: char) -> nat {
    if c == '0' {
        0
    } else if c == '1' {
        1
    } else if c == '2' {
        2
    } else if c == '3' {
        3
    } else if c == '4' {
        4
    } else if c == '5' {
        5
    } else if c == '6' {
        6
    } else if c == '7' {
        7
    } else if c == '8' {
        8
    } else {
        9
    }
}

/// Whether a character is a decimal digit.
pub open spec fn is_digit(c: char) -> bool {
    c == '0' || c == '1' || c == '2' || c == '3' || c == '4' || c == '5' || c == '6' || c == '7'
        || c == '8' || c == '9'
}

/// `n` written as exactly `w` decimal digits, zero-padded on the left.
pub open spec fn pad_digits(n: nat, w: nat) -> Seq<char>
    decreases w,
{
    if w == 0 {
        Seq::empty()
    } else {
        pad_digits(n / 10, (w - 1) as nat).push(digit_char((n % 10) as int))
    }
}

/// The value of a sequence of decimal digit characters.
pub open spec fn num_of(ds: Seq<char>) -> nat
    decreases ds.len(),
{
    if ds.len() == 0 {
        0
    } else {
        num_of(ds.drop_last()) * 10 + digit_val(ds.last())
    }
}

/// Ten to the `w`.
pub open spec fn pow10(w: nat) -> nat
    decreases w,
{
    if w == 0 {
        1
    } else {
        10 * pow10((w - 1) as nat)
    }
}

/// Twenty digits cover the whole `u64` range.
proof fn lemma_pow10_20()
    ensures
        pow10(20) == 100000000000000000000,
{
    reveal_with_fuel(pow10, 21);
}

/// A value below `10^w`, written as `w` digits, reads back as itself.
proof fn lemma_pad_digits_props(n: nat, w: nat)
    requires
        n < pow10(w),
    ensures
        pad_digits(n, w).len() == w,
        forall|i: int| 0 <= i < w ==> is_digit(#[trigger] pad_digits(n, w)[i]),
        num_of(pad_digits(n, w)) == n,
    decreases w,
{
    if w == 0 {
    } else {
        let m = n / 10;
        let d = n % 10;
        assert(m < pow10((w - 1) as nat) && m * 10 + d == n && d < 10) by (nonlinear_arith)
            requires
                n < 10 * pow10((w - 1) as nat),
                m == n / 10,
                d == n % 10,
        ;
        lemma_pad_digits_props(m, (w - 1) as nat);
        let p = pad_digits(n, w);
        assert(p.drop_last() =~= pad_digits(m, (w - 1) as nat));
        assert(digit_val(digit_char(d as int)) == d);
    }
}

/// The value of a digit sequence is at least the value of any of its
/// prefixes.
proof fn lemma_num_of_prefix(ds: Seq<char>, i: int)
    requires
        0 <= i <= ds.len(),
    ensures
        num_of(ds.subrange(0, i)) <= num_of(ds),
    decreases ds.len() - i,
{
    if i == ds.len() {
        assert(ds.subrange(0, i) =~= ds);
    } else {
        lemma_num_of_prefix(ds, i + 1);
        assert(ds.subrange(0, i + 1).drop_last() =~= ds.subrange(0, i));
        assert(num_of(ds.subrange(0, i + 1)) == num_of(ds.subrange(0, i)) * 10 + digit_val(
            ds[i],
        ));
    }
}

/// A string field on the wire: its length as twenty digits, then its
/// characters.
pub open spec fn enc_str(s: Seq<char>) -> Seq<char> {
    pad_digits(s.len(), 20) + s
}

/// A number field on the wire: twenty digits.
pub open spec fn enc_num(n: nat) -> Seq<char> {
    pad_digits(n, 20)
}

/// An optional number on the wire: a presence mark, then twenty digits
/// (zeros when absent).
pub open spec fn enc_opt(m: Option<int>) -> Seq<char> {
    match m {
        Option::None => seq!['n'] + pad_digits(0, 20),
        Option::Some(t) => seq!['s'] + pad_digits(t as nat, 20),
    }
}

/// A boolean on the wire: one mark character.
pub open spec fn enc_bool(b: bool) -> Seq<char> {
    if b {
        seq!['t']
    } else {
        seq!['f']
    }
}

/// Whether an entry model's numbers and lengths fit the wire's twenty-digit
/// fields. The model of every actual entry does: its numbers come from
/// `u64` values and its strings from memory.
pub open spec fn encodable(e: EntryModel) -> bool {
    &&& e.name().len() <= u64::MAX
    &&& e.path().len() <= u64::MAX
    &&& 0 <= e.size() <= u64::MAX
    &&& match e {
        EntryModel::File { modified, .. } => opt_in_range(modified),
        EntryModel::Directory { modified, .. } => opt_in_range(modified),
        EntryModel::Symlink { modified, target, .. } => opt_in_range(modified) && target.len()
            <= u64::MAX,
        EntryModel::Unreadable { reason, .. } => reason.len() <= u64::MAX,
    }
}

/// Whether an optional time fits a twenty-digit field.
pub open spec fn opt_in_range(m: Option<int>) -> bool {
    match m {
        Option::None => true,
        Option::Some(t) => 0 <= t <= u64::MAX,
    }
}

/// The wire form of one entry: a variant tag, then the fields in order.
pub open spec fn spec_encode(e: EntryModel) -> Seq<char> {
    match e {
        EntryModel::File { name, path, size, modified } => seq!['F'] + enc_str(name) + enc_str(
            path,
        ) + enc_num(size as nat) + enc_opt(modified),
        EntryModel::Directory { name, path, modified } => seq!['D'] + enc_str(name) + enc_str(
            path,
        ) + enc_opt(modified),
        EntryModel::Symlink { name, path, size, modified, target, target_is_dir } => seq!['L']
            + enc_str(name) + enc_str(path) + enc_num(size as nat) + enc_opt(modified) + enc_str(
            target,
        ) + enc_bool(target_is_dir),
        EntryModel::Unreadable { name, path, reason } => seq!['U'] + enc_str(name) + enc_str(path)
            + enc_str(reason),
    }
}

/// Reads twenty digits at `pos` as a number, if they are there, are all
/// digits, and their value fits a `u64`.
pub open spec fn read_num(s: Seq<char>, pos: int) -> Option<nat> {
    if 0 <= pos && pos + 20 <= s.len() && (forall|i: int|
        pos <= i < pos + 20 ==> #[trigger] is_digit(s[i])) && num_of(s.subrange(pos, pos + 20))
        <= u64::MAX {
        Option::Some(num_of(s.subrange(pos, pos + 20)))
    } else {
        Option::None
    }
}

/// Reads a length-prefixed string at `pos`: the characters, and the
/// position after them.
pub open spec fn read_str(s: Seq<char>, pos: int) -> Option<(Seq<char>, int)> {
    match read_num(s, pos) {
        Option::None => Option::None,
        Option::Some(l) => if pos + 20 + l <= s.len() {
            Option::Some((s.subrange(pos + 20, pos + 20 + l), pos + 20 + l))
        } else {
            Option::None
        },
    }
}

/// Reads an optional number at `pos`.
pub open spec fn read_opt(s: Seq<char>, pos: int) -> Option<Option<nat>> {
    if 0 <= pos && pos < s.len() {
        if s[pos] == 'n' {
            match read_num(s, pos + 1) {
                Option::None => Option::None,
                Option::Some(_) => Option::Some(Option::None),
            }
        } else if s[pos] == 's' {
            match read_num(s, pos + 1) {
                Option::None => Option::None,
                Option::Some(v) => Option::Some(Option::Some(v)),
            }
        } else {
            Option::None
        }
    } else {
        Option::None
    }
}

/// Reads a boolean mark at `pos`.
pub open spec fn read_bool(s: Seq<char>, pos: int) -> Option<bool> {
    if 0 <= pos && pos < s.len() {
        if s[pos] == 't' {
            Option::Some(true)
        } else if s[pos] == 'f' {
            Option::Some(false)
        } else {
            Option::None
        }
    } else {
        Option::None
    }
}

/// The model of an optional time read back from the wire.
pub open spec fn opt_model(m: Option<nat>) -> Option<int> {
    match m {
        Option::None => Option::None,
        Option::Some(t) => Option::Some(t as int),
    }
}

/// Decodes one wire string back into an entry model: the inverse of
/// [`spec_encode`] (see [`lemma_codec_round_trip`]); anything else decodes
/// to nothing.
pub open spec fn spec_decode(s: Seq<char>) -> Option<EntryModel> {
    if s.len() == 0 {
        Option::None
    } else if s[0] == 'F' {
        match read_str(s, 1) {
            Option::None => Option::None,
            Option::Some((name, p1)) => match read_str(s, p1) {
                Option::None => Option::None,
                Option::Some((path, p2)) => match read_num(s, p2) {
                    Option::None => Option::None,
                    Option::Some(size) => match read_opt(s, p2 + 20) {
                        Option::None => Option::None,
                        Option::Some(m) => if p2 + 41 == s.len() {
                            Option::Some(
                                EntryModel::File {
                                    name,
                                    path,
                                    size: size as int,
                                    modified: opt_model(m),
                                },
                            )
                        } else {
                            Option::None
                        },
                    },
                },
            },
        }
    } else if s[0] == 'D' {
        match read_str(s, 1) {
            Option::None => Option::None,
            Option::Some((name, p1)) => match read_str(s, p1) {
                Option::None => Option::None,
                Option::Some((path, p2)) => match read_opt(s, p2) {
                    Option::None => Option::None,
                    Option::Some(m) => if p2 + 21 == s.len() {
                        Option::Some(EntryModel::Directory { name, path, modified: opt_model(m) })
                    } else {
                        Option::None
                    },
                },
            },
        }
    } else if s[0] == 'L' {
        match read_str(s, 1) {
            Option::None => Option::None,
            Option::Some((name, p1)) => match read_str(s, p1) {
                Option::None => Option::None,
                Option::Some((path, p2)) => match read_num(s, p2) {
                    Option::None => Option::None,
                    Option::Some(size) => match read_opt(s, p2 + 20) {
                        Option::None => Option::None,
                        Option::Some(m) => match read_str(s, p2 + 41) {
                            Option::None => Option::None,
                            Option::Some((target, p3)) => match read_bool(s, p3) {
                                Option::None => Option::None,
                                Option::Some(target_is_dir) => if p3 + 1 == s.len() {
                                    Option::Some(
                                        EntryModel::Symlink {
                                            name,
                                            path,
                                            size: size as int,
                                            modified: opt_model(m),
                                            target,
                                            target_is_dir,
                                        },
                                    )
                                } else {
                                    Option::None
                                },
                            },
                        },
                    },
                },
            },
        }
    } else if s[0] == 'U' {
        match read_str(s, 1) {
            Option::None => Option::None,
            Option::Some((name, p1)) => match read_str(s, p1) {
                Option::None => Option::None,
                Option::Some((path, p2)) => match read_str(s, p2) {
                    Option::None => Option::None,
                    Option::Some((reason, p3)) => if p3 == s.len() {
                        Option::Some(EntryModel::Unreadable { name, path, reason })
                    } else {
                        Option::None
                    },
                },
            },
        }
    } else {
        Option::None
    }
}

/// An encoded string field is twenty characters of length prefix plus the
/// characters themselves.
proof fn lemma_enc_str_len(x: Seq<char>)
    requires
        x.len() <= u64::MAX,
    ensures
        enc_str(x).len() == 20 + x.len(),
{
    lemma_pow10_20();
    lemma_pad_digits_props(x.len(), 20);
}

/// An encoded optional number is twenty-one characters.
proof fn lemma_enc_opt_len(m: Option<int>)
    requires
        opt_in_range(m),
    ensures
        enc_opt(m).len() == 21,
{
    lemma_pow10_20();
    match m {
        Option::None => lemma_pad_digits_props(0, 20),
        Option::Some(t) => lemma_pad_digits_props(t as nat, 20),
    }
}

/// Twenty digits standing at `pos` read back as the number they encode.
proof fn lemma_read_num_at(s: Seq<char>, pos: int, n: nat)
    requires
        0 <= pos,
        pos + 20 <= s.len(),
        s.subrange(pos, pos + 20) == pad_digits(n, 20),
        n <= u64::MAX,
    ensures
        read_num(s, pos) == Option::Some(n),
{
    lemma_pow10_20();
    lemma_pad_digits_props(n, 20);
    assert forall|i: int| pos <= i < pos + 20 implies is_digit(s[i]) by {
        assert(s[i] == s.subrange(pos, pos + 20)[i - pos]);
    }
    assert(num_of(s.subrange(pos, pos + 20)) == n);
}

/// An encoded string field standing at `pos` reads back as its characters.
proof fn lemma_read_str_at(s: Seq<char>, pos: int, x: Seq<char>)
    requires
        0 <= pos,
        x.len() <= u64::MAX,
        pos + 20 + x.len() <= s.len(),
        s.subrange(pos, pos + 20 + x.len()) == enc_str(x),
    ensures
        read_str(s, pos) == Option::Some((x, pos + 20 + x.len())),
{
    lemma_pow10_20();
    lemma_pad_digits_props(x.len(), 20);
    assert(s.subrange(pos, pos + 20) =~= pad_digits(x.len(), 20)) by {
        assert forall|i: int| 0 <= i < 20 implies s.subrange(pos, pos + 20)[i] == pad_digits(
            x.len(),
            20,
        )[i] by {
            assert(s[pos + i] == s.subrange(pos, pos + 20 + x.len())[i]);
        }
    }
    lemma_read_num_at(s, pos, x.len());
    assert(s.subrange(pos + 20, pos + 20 + x.len()) =~= x) by {
        assert forall|i: int| 0 <= i < x.len() implies s.subrange(pos + 20, pos + 20 + x.len())[i]
            == x[i] by {
            assert(s[pos + 20 + i] == s.subrange(pos, pos + 20 + x.len())[20 + i]);
        }
    }
}

/// An encoded optional number standing at `pos` reads back as itself.
proof fn lemma_read_opt_at(s: Seq<char>, pos: int, m: Option<int>)
    requires
        0 <= pos,
        opt_in_range(m),
        pos + 21 <= s.len(),
        s.subrange(pos, pos + 21) == enc_opt(m),
    ensures
        read_opt(s, pos) matches Option::Some(v) && opt_model(v) == m,
{
    lemma_pow10_20();
    assert(s[pos] == s.subrange(pos, pos + 21)[0]);
    match m {
        Option::None => {
            lemma_pad_digits_props(0, 20);
            assert(s[pos] == 'n');
            assert(s.subrange(pos + 1, pos + 21) =~= pad_digits(0, 20)) by {
                assert forall|i: int| 0 <= i < 20 implies #[trigger] s.subrange(pos + 1, pos + 21)[i]
                    == pad_digits(0, 20)[i] by {
                    assert(s[pos + 1 + i] == s.subrange(pos, pos + 21)[1 + i]);
                }
            }
            lemma_read_num_at(s, pos + 1, 0);
        },
        Option::Some(t) => {
            lemma_pad_digits_props(t as nat, 20);
            assert(s[pos] == 's');
            assert(s.subrange(pos + 1, pos + 21) =~= pad_digits(t as nat, 20)) by {
                assert forall|i: int| 0 <= i < 20 implies #[trigger] s.subrange(pos + 1, pos + 21)[i]
                    == pad_digits(t as nat, 20)[i] by {
                    assert(s[pos + 1 + i] == s.subrange(pos, pos + 21)[1 + i]);
                }
            }
            lemma_read_num_at(s, pos + 1, t as nat);
        },
    }
}

/// An encoded boolean mark standing at `pos` reads back as itself.
proof fn lemma_read_bool_at(s: Seq<char>, pos: int, b: bool)
    requires
        0 <= pos,
        pos + 1 <= s.len(),
        s.subrange(pos, pos + 1) == enc_bool(b),
    ensures
        read_bool(s, pos) == Option::Some(b),
{
    assert(s[pos] == s.subrange(pos, pos + 1)[0]);
}

/// Round trip of a `File` entry.
proof fn lemma_round_trip_file(e: EntryModel)
    requires
        encodable(e),
        e is File,
    ensures
        spec_decode(spec_encode(e)) == Option::Some(e),
{
    lemma_pow10_20();
    let s = spec_encode(e);
    if let EntryModel::File { name, path, size, modified } = e {
        lemma_enc_str_len(name);
        lemma_enc_str_len(path);
        lemma_enc_opt_len(modified);
        lemma_pad_digits_props(size as nat, 20);
        let p1 = 21 + name.len() as int;
        let p2 = p1 + 20 + path.len() as int;
        assert(s.len() == p2 + 41);
        assert(s[0] == 'F');
        assert(s.subrange(1, p1) =~= enc_str(name));
        lemma_read_str_at(s, 1, name);
        assert(s.subrange(p1, p2) =~= enc_str(path));
        lemma_read_str_at(s, p1, path);
        assert(s.subrange(p2, p2 + 20) =~= pad_digits(size as nat, 20));
        lemma_read_num_at(s, p2, size as nat);
        assert(s.subrange(p2 + 20, p2 + 41) =~= enc_opt(modified));
        lemma_read_opt_at(s, p2 + 20, modified);
    }
}

/// Round trip of a `Directory` entry.
proof fn lemma_round_trip_directory(e: EntryModel)
    requires
        encodable(e),
        e is Directory,
    ensures
        spec_decode(spec_encode(e)) == Option::Some(e),
{
    lemma_pow10_20();
    let s = spec_encode(e);
    if let EntryModel::Directory { name, path, modified } = e {
        lemma_enc_str_len(name);
        lemma_enc_str_len(path);
        lemma_enc_opt_len(modified);
        let p1 = 21 + name.len() as int;
        let p2 = p1 + 20 + path.len() as int;
        assert(s.len() == p2 + 21);
        assert(s[0] == 'D');
        assert(s.subrange(1, p1) =~= enc_str(name));
        lemma_read_str_at(s, 1, name);
        assert(s.subrange(p1, p2) =~= enc_str(path));
        lemma_read_str_at(s, p1, path);
        assert(s.subrange(p2, p2 + 21) =~= enc_opt(modified));
        lemma_read_opt_at(s, p2, modified);
    }
}

/// Round trip of a `Symlink` entry.
#[verifier::rlimit(60)]
proof fn lemma_round_trip_symlink(e: EntryModel)
    requires
        encodable(e),
        e is Symlink,
    ensures
        spec_decode(spec_encode(e)) == Option::Some(e),
{
    lemma_pow10_20();
    let s = spec_encode(e);
    if let EntryModel::Symlink { name, path, size, modified, target, target_is_dir } = e {
        lemma_enc_str_len(name);
        lemma_enc_str_len(path);
        lemma_enc_str_len(target);
        lemma_enc_opt_len(modified);
        lemma_pad_digits_props(size as nat, 20);
        let p1 = 21 + name.len() as int;
        let p2 = p1 + 20 + path.len() as int;
        let p3 = p2 + 41 + 20 + target.len() as int;
        assert(s.len() == p3 + 1);
        assert(s[0] == 'L');
        assert(s.subrange(1, p1) =~= enc_str(name));
        lemma_read_str_at(s, 1, name);
        assert(s.subrange(p1, p2) =~= enc_str(path));
        lemma_read_str_at(s, p1, path);
        assert(s.subrange(p2, p2 + 20) =~= pad_digits(size as nat, 20));
        lemma_read_num_at(s, p2, size as nat);
        assert(s.subrange(p2 + 20, p2 + 41) =~= enc_opt(modified));
        lemma_read_opt_at(s, p2 + 20, modified);
        assert(s.subrange(p2 + 41, p3) =~= enc_str(target));
        lemma_read_str_at(s, p2 + 41, target);
        assert(s.subrange(p3, p3 + 1) =~= enc_bool(target_is_dir));
        lemma_read_bool_at(s, p3, target_is_dir);
    }
}

/// Round trip of an `Unreadable` entry.
proof fn lemma_round_trip_unreadable(e: EntryModel)
    requires
        encodable(e),
        e is Unreadable,
    ensures
        spec_decode(spec_encode(e)) == Option::Some(e),
{
    lemma_pow10_20();
    let s = spec_encode(e);
    if let EntryModel::Unreadable { name, path, reason } = e {
        lemma_enc_str_len(name);
        lemma_enc_str_len(path);
        lemma_enc_str_len(reason);
        let p1 = 21 + name.len() as int;
        let p2 = p1 + 20 + path.len() as int;
        let p3 = p2 + 20 + reason.len() as int;
        assert(s.len() == p3);
        assert(s[0] == 'U');
        assert(s.subrange(1, p1) =~= enc_str(name));
        lemma_read_str_at(s, 1, name);
        assert(s.subrange(p1, p2) =~= enc_str(path));
        lemma_read_str_at(s, p1, path);
        assert(s.subrange(p2, p3) =~= enc_str(reason));
        lemma_read_str_at(s, p2, reason);
    }
}

/// The wire form is lossless: decoding what was encoded gives back exactly
/// the entry, tag and fields alike. Every entry whose numbers fit the wire's
/// twenty-digit fields round-trips; the model of every actual entry does.
pub proof fn lemma_codec_round_trip(e: EntryModel)
    requires
        encodable(e),
    ensures
        spec_decode(spec_encode(e)) == Option::Some(e),
{
    match e {
        EntryModel::File { .. } => lemma_round_trip_file(e),
        EntryModel::Directory { .. } => lemma_round_trip_directory(e),
        EntryModel::Symlink { .. } => lemma_round_trip_symlink(e),
        EntryModel::Unreadable { .. } => lemma_round_trip_unreadable(e),
    }
}

/// The one-character string for a digit value.
fn digit_str(d: u64) -> (r: &'static str)
    requires
        d < 10,
    ensures
        r@ == seq![digit_char(d as int)],
{
    if d == 0 {
        proof {
            reveal_strlit("0");
            assert("0"@ =~= seq![digit_char(0)]);
        }
        "0"
    } else if d == 1 {
        proof {
            reveal_strlit("1");
            assert("1"@ =~= seq![digit_char(1)]);
        }
        "1"
    } else if d == 2 {
        proof {
            reveal_strlit("2");
            assert("2"@ =~= seq![digit_char(2)]);
        }
        "2"
    } else if d == 3 {
        proof {
            reveal_strlit("3");
            assert("3"@ =~= seq![digit_char(3)]);
        }
        "3"
    } else if d == 4 {
        proof {
            reveal_strlit("4");
            assert("4"@ =~= seq![digit_char(4)]);
        }
        "4"
    } else if d == 5 {
        proof {
            reveal_strlit("5");
            assert("5"@ =~= seq![digit_char(5)]);
        }
        "5"
    } else if d == 6 {
        proof {
            reveal_strlit("6");
            assert("6"@ =~= seq![digit_char(6)]);
        }
        "6"
    } else if d == 7 {
        proof {
            reveal_strlit("7");
            assert("7"@ =~= seq![digit_char(7)]);
        }
        "7"
    } else if d == 8 {
        proof {
            reveal_strlit("8");
            assert("8"@ =~= seq![digit_char(8)]);
        }
        "8"
    } else {
        proof {
            reveal_strlit("9");
            assert("9"@ =~= seq![digit_char(9)]);
        }
        "9"
    }
}

/// `n` as exactly `w` decimal digits, zero-padded.
fn pad_str(n: u64, w: usize) -> (r: String)
    ensures
        r@ == pad_digits(n as nat, w as nat),
    decreases w,
{
    if w == 0 {
        let r = String::new();
        proof {
            assert(r@ =~= pad_digits(n as nat, 0));
        }
        r
    } else {
        let mut r = pad_str(n / 10, w - 1);
        r.append(digit_str(n % 10));
        proof {
            assert(r@ =~= pad_digits(n as nat, w as nat));
        }
        r
    }
}

/// Appends a length-prefixed string field.
fn append_str_field(out: &mut String, s: &str)
    ensures
        final (out)@ == old(out)@ + enc_str(s@),
{
    let len = s.unicode_len();
    let p = pad_str(len as u64, 20);
    out.append(p.as_str());
    out.append(s);
    proof {
        assert(out@ =~= old(out)@ + enc_str(s@));
    }
}

/// Appends a twenty-digit number field.
fn append_num_field(out: &mut String, n: u64)
    ensures
        final (out)@ == old(out)@ + enc_num(n as nat),
{
    let p = pad_str(n, 20);
    out.append(p.as_str());
}

/// Appends an optional number field: a presence mark and twenty digits.
fn append_opt_field(out: &mut String, m: Option<u64>)
    ensures
        final (out)@ == old(out)@ + enc_opt(spec_modified(m)),
{
    match m {
        Option::None => {
            out.append("n");
            let p = pad_str(0, 20);
            out.append(p.as_str());
            proof {
                reveal_strlit("n");
                assert("n"@ =~= seq!['n']);
                assert(out@ =~= old(out)@ + enc_opt(spec_modified(m)));
            }
        },
        Option::Some(t) => {
            out.append("s");
            let p = pad_str(t, 20);
            out.append(p.as_str());
            proof {
                reveal_strlit("s");
                assert("s"@ =~= seq!['s']);
                assert(out@ =~= old(out)@ + enc_opt(spec_modified(m)));
            }
        },
    }
}

/// Encodes one entry into its wire string: exactly [`spec_encode`] of its
/// model.
pub fn encode_entry(e: &FileEntry) -> (r: String)
    ensures
        r@ == spec_encode(e@),
{
    let mut out = String::new();
    match e {
        FileEntry::File { name, path, size, modified } => {
            out.append("F");
            proof {
                reveal_strlit("F");
                assert("F"@ =~= seq!['F']);
            }
            append_str_field(&mut out, name.as_str());
            append_str_field(&mut out, path.as_str());
            append_num_field(&mut out, *size);
            append_opt_field(&mut out, *modified);
            proof {
                assert(out@ =~= spec_encode(e@));
            }
        },
        FileEntry::Directory { name, path, modified } => {
            out.append("D");
            proof {
                reveal_strlit("D");
                assert("D"@ =~= seq!['D']);
            }
            append_str_field(&mut out, name.as_str());
            append_str_field(&mut out, path.as_str());
            append_opt_field(&mut out, *modified);
            proof {
                assert(out@ =~= spec_encode(e@));
            }
        },
        FileEntry::Symlink { name, path, size, modified, target, target_is_dir } => {
            out.append("L");
            proof {
                reveal_strlit("L");
                assert("L"@ =~= seq!['L']);
            }
            append_str_field(&mut out, name.as_str());
            append_str_field(&mut out, path.as_str());
            append_num_field(&mut out, *size);
            append_opt_field(&mut out, *modified);
            append_str_field(&mut out, target.as_str());
            if *target_is_dir {
                out.append("t");
                proof {
                    reveal_strlit("t");
                    assert("t"@ =~= seq!['t']);
                }
            } else {
                out.append("f");
                proof {
                    reveal_strlit("f");
                    assert("f"@ =~= seq!['f']);
                }
            }
            proof {
                assert(out@ =~= spec_encode(e@));
            }
        },
        FileEntry::Unreadable { name, path, reason } => {
            out.append("U");
            proof {
                reveal_strlit("U");
                assert("U"@ =~= seq!['U']);
            }
            append_str_field(&mut out, name.as_str());
            append_str_field(&mut out, path.as_str());
            append_str_field(&mut out, reason.as_str());
            proof {
                assert(out@ =~= spec_encode(e@));
            }
        },
    }
    out
}

/// The digit value of a character, where it is one.
fn digit_of(c: char) -> (r: Option<u64>)
    ensures
        match r {
            Option::Some(d) => is_digit(c) && d == digit_val(c) && d < 10,
            Option::None => !is_digit(c),
        },
{
    if c == '0' {
        Option::Some(0)
    } else if c == '1' {
        Option::Some(1)
    } else if c == '2' {
        Option::Some(2)
    } else if c == '3' {
        Option::Some(3)
    } else if c == '4' {
        Option::Some(4)
    } else if c == '5' {
        Option::Some(5)
    } else if c == '6' {
        Option::Some(6)
    } else if c == '7' {
        Option::Some(7)
    } else if c == '8' {
        Option::Some(8)
    } else if c == '9' {
        Option::Some(9)
    } else {
        Option::None
    }
}

/// Decides [`read_num`]: twenty digits at `pos`, valued within `u64`.
fn read_num_exec(s: &str, pos: usize) -> (r: Option<u64>)
    ensures
        match r {
            Option::Some(v) => read_num(s@, pos as int) == Option::Some(v as nat),
            Option::None => read_num(s@, pos as int) is None,
        },
{
    let len = s.unicode_len();
    if pos > len || len - pos < 20 {
        return Option::None;
    }
    let ghost ds = s@.subrange(pos as int, pos as int + 20);
    let mut acc: u64 = 0;
    let mut i: usize = 0;
    while i < 20
        invariant
            i <= 20,
            pos + 20 <= s@.len(),
            s@.len() <= usize::MAX,
            ds == s@.subrange(pos as int, pos as int + 20),
            acc as nat == num_of(ds.subrange(0, i as int)),
            forall|k: int| 0 <= k < i ==> is_digit(#[trigger] ds[k]),
        decreases 20 - i,
    {
        let c = s.get_char(pos + i);
        proof {
            assert(c == ds[i as int]);
        }
        match digit_of(c) {
            Option::None => {
                proof {
                    assert(!is_digit(s@[pos as int + i as int]));
                }
                return Option::None;
            },
            Option::Some(d) => {
                proof {
                    assert(ds.subrange(0, i as int + 1).drop_last() =~= ds.subrange(0, i as int));
                    assert(ds.subrange(0, i as int + 1).last() == ds[i as int]);
                }
                let a10 = match acc.checked_mul(10) {
                    Option::Some(a) => a,
                    Option::None => {
                        proof {
                            lemma_num_of_prefix(ds, i as int + 1);
                            assert(num_of(ds) > u64::MAX);
                        }
                        return Option::None;
                    },
                };
                acc = match a10.checked_add(d) {
                    Option::Some(a) => a,
                    Option::None => {
                        proof {
                            lemma_num_of_prefix(ds, i as int + 1);
                            assert(num_of(ds) > u64::MAX);
                        }
                        return Option::None;
                    },
                };
            },
        }
        i += 1;
    }
    proof {
        assert(ds.subrange(0, 20) =~= ds);
        assert forall|k: int| pos <= k < pos + 20 implies is_digit(s@[k]) by {
            assert(is_digit(ds[k - pos]));
        }
    }
    Option::Some(acc)
}

/// Decides [`read_str`]: a length-prefixed string field at `pos`, returned
/// with the position after it.
fn read_str_exec(s: &str, pos: usize) -> (r: Option<(String, usize)>)
    ensures
        match r {
            Option::Some((x, p2)) => read_str(s@, pos as int) == Option::Some((x@, p2 as int)),
            Option::None => read_str(s@, pos as int) is None,
        },
{
    let l = match read_num_exec(s, pos) {
        Option::None => {
            return Option::None;
        },
        Option::Some(l) => l,
    };
    let len = s.unicode_len();
    // The prefix was readable, so pos + 20 <= len already.
    if l > (len - pos - 20) as u64 {
        return Option::None;
    }
    let start = pos + 20;
    let end = start + (l as usize);
    let field = s.substring_char(start, end);
    Option::Some((field.to_owned(), end))
}

/// Decides [`read_opt`]: a presence mark and twenty digits at `pos`.
fn read_opt_exec(s: &str, pos: usize) -> (r: Option<(Option<u64>, usize)>)
    ensures
        match r {
            Option::Some((m, p2)) => read_opt(s@, pos as int) matches Option::Some(v) && opt_model(
                v,
            ) == spec_modified(m) && p2 == pos + 21,
            Option::None => read_opt(s@, pos as int) is None,
        },
{
    let len = s.unicode_len();
    if pos >= len {
        return Option::None;
    }
    let mark = s.get_char(pos);
    if mark == 'n' {
        match read_num_exec(s, pos + 1) {
            Option::None => Option::None,
            Option::Some(_) => Option::Some((Option::None, pos + 21)),
        }
    } else if mark == 's' {
        match read_num_exec(s, pos + 1) {
            Option::None => Option::None,
            Option::Some(v) => Option::Some((Option::Some(v), pos + 21)),
        }
    } else {
        Option::None
    }
}

/// Decides [`read_bool`]: a boolean mark at `pos`.
fn read_bool_exec(s: &str, pos: usize) -> (r: Option<bool>)
    ensures
        match r {
            Option::Some(b) => read_bool(s@, pos as int) == Option::Some(b),
            Option::None => read_bool(s@, pos as int) is None,
        },
{
    let len = s.unicode_len();
    if pos >= len {
        return Option::None;
    }
    let mark = s.get_char(pos);
    if mark == 't' {
        Option::Some(true)
    } else if mark == 'f' {
        Option::Some(false)
    } else {
        Option::None
    }
}

/// Decodes a wire string back into an entry: exactly [`spec_decode`] of its
/// characters, so by [`lemma_codec_round_trip`] it inverts [`encode_entry`].
pub fn decode_entry(s: &str) -> (r: Option<FileEntry>)
    ensures
        match r {
            Option::Some(e) => spec_decode(s@) == Option::Some(e@),
            Option::None => spec_decode(s@) is None,
        },
{
    let len = s.unicode_len();
    if len == 0 {
        return Option::None;
    }
    let tag = s.get_char(0);
    if tag == 'F' {
        let (name, p1) = match read_str_exec(s, 1) {
            Option::None => {
                return Option::None;
            },
            Option::Some(v) => v,
        };
        let (path, p2) = match read_str_exec(s, p1) {
            Option::None => {
                return Option::None;
            },
            Option::Some(v) => v,
        };
        let size = match read_num_exec(s, p2) {
            Option::None => {
                return Option::None;
            },
            Option::Some(v) => v,
        };
        let (modified, p3) = match read_opt_exec(s, p2 + 20) {
            Option::None => {
                return Option::None;
            },
            Option::Some(v) => v,
        };
        if p3 == len {
            Option::Some(FileEntry::File { name, path, size, modified })
        } else {
            Option::None
        }
    } else if tag == 'D' {
        let (name, p1) = match read_str_exec(s, 1) {
            Option::None => {
                return Option::None;
            },
            Option::Some(v) => v,
        };
        let (path, p2) = match read_str_exec(s, p1) {
            Option::None => {
                return Option::None;
            },
            Option::Some(v) => v,
        };
        let (modified, p3) = match read_opt_exec(s, p2) {
            Option::None => {
                return Option::None;
            },
            Option::Some(v) => v,
        };
        if p3 == len {
            Option::Some(FileEntry::Directory { name, path, modified })
        } else {
            Option::None
        }
    } else if tag == 'L' {
        let (name, p1) = match read_str_exec(s, 1) {
            Option::None => {
                return Option::None;
            },
            Option::Some(v) => v,
        };
        let (path, p2) = match read_str_exec(s, p1) {
            Option::None => {
                return Option::None;
            },
            Option::Some(v) => v,
        };
        let size = match read_num_exec(s, p2) {
            Option::None => {
                return Option::None;
            },
            Option::Some(v) => v,
        };
        let (modified, p3) = match read_opt_exec(s, p2 + 20) {
            Option::None => {
                return Option::None;
            },
            Option::Some(v) => v,
        };
        let (target, p4) = match read_str_exec(s, p3) {
            Option::None => {
                return Option::None;
            },
            Option::Some(v) => v,
        };
        let target_is_dir = match read_bool_exec(s, p4) {
            Option::None => {
                return Option::None;
            },
            Option::Some(v) => v,
        };
        if p4 + 1 == len {
            Option::Some(
                FileEntry::Symlink { name, path, size, modified, target, target_is_dir },
            )
        } else {
            Option::None
        }
    } else if tag == 'U' {
        let (name, p1) = match read_str_exec(s, 1) {
            Option::None => {
                return Option::None;
            },
            Option::Some(v) => v,
        };
        let (path, p2) = match read_str_exec(s, p1) {
            Option::None => {
                return Option::None;
            },
            Option::Some(v) => v,
        };
        let (reason, p3) = match read_str_exec(s, p2) {
            Option::None => {
                return Option::None;
            },
            Option::Some(v) => v,
        };
        if p3 == len {
            Option::Some(FileEntry::Unreadable { name, path, reason })
        } else {
            Option::None
        }
    } else {
        Option::None
    }
}

} // verus!
