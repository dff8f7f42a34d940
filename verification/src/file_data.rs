use vstd::prelude::*;
use vstd::string::StringExecFns;

verus! {

/// 1024 to the power `e`: the number of bytes one unit at scale `e`
/// stands for.
pub open spec fn pow1024(e: nat) -> nat
    decreases e,
{
    if e == 0 {
        1
    } else {
        1024 * pow1024((e - 1) as nat)
    }
}

/// The scale a size is displayed at, continuing an already reached scale
/// `e`: divide by 1024 while the scaled value is still at least 1024 and
/// units are left (the ninth and last unit sits at scale 8).
pub open spec fn scale_exp_from(size: nat, e: nat) -> nat
    decreases 8 - e,
{
    if e < 8 && size >= pow1024(e + 1) {
        scale_exp_from(size, e + 1)
    } else {
        e
    }
}

/// The scale a size is displayed at.
pub open spec fn scale_exp(size: nat) -> nat {
    scale_exp_from(size, 0)
}

/// The decimal digit characters.
pub open spec fn digit_char(d: nat) -> char {
    if d == 0 {
        '0'
    } else if d == 1 {
        '1'
    } else if d == 2 {
        '2'
    } else if d == 3 {
        '3'
    } else if d == 4 {
        '4'
    } else if d == 5 {
        '5'
    } else if d == 6 {
        '6'
    } else if d == 7 {
        '7'
    } else if d == 8 {
        '8'
    } else {
        '9'
    }
}

/// `n` written in decimal, most significant digit first, no leading zeros
/// (a single zero for 0).
pub open spec fn dec_chars(n: nat) -> Seq<char>
    decreases n,
{
    if n < 10 {
        seq![digit_char(n)]
    } else {
        dec_chars(n / 10).push(digit_char(n % 10))
    }
}

/// The unit name at scale `e`.
pub open spec fn unit_chars(e: nat) -> Seq<char> {
    if e == 0 {
        seq!['B', 'y', 't', 'e', 's']
    } else if e == 1 {
        seq!['K', 'B']
    } else if e == 2 {
        seq!['M', 'B']
    } else if e == 3 {
        seq!['G', 'B']
    } else if e == 4 {
        seq!['T', 'B']
    } else if e == 5 {
        seq!['P', 'B']
    } else if e == 6 {
        seq!['E', 'B']
    } else if e == 7 {
        seq!['Z', 'B']
    } else {
        seq!['Y', 'B']
    }
}

/// The scaled value in hundredths: `size / p` as a two-decimal
/// fixed-point number, rounded to the nearest hundredth, ties to even.
pub open spec fn hundredths(size: nat, p: nat) -> nat {
    let q = (100 * size) / p;
    let r = (100 * size) % p;
    if 2 * r < p {
        q
    } else if 2 * r > p {
        q + 1
    } else if q % 2 == 0 {
        q
    } else {
        q + 1
    }
}

/// A size rendered for people: scaled by 1024 until it is below 1024 (or
/// units run out), then written with no decimals when the scaled value is
/// exact and two decimals otherwise, with the unit name after it.
pub open spec fn size_chars(size: nat) -> Seq<char> {
    let e = scale_exp(size);
    let p = pow1024(e);
    let num = if size % p == 0 {
        dec_chars(size / p)
    } else {
        let h = hundredths(size, p);
        dec_chars(h / 100) + seq!['.', digit_char((h / 10) % 10), digit_char(h % 10)]
    };
    num + seq![' '] + unit_chars(e)
}

/// 1024 to any power is at least 1.
pub proof fn lemma_pow1024_pos(e: nat)
    ensures
        pow1024(e) >= 1,
    decreases e,
{
    if e > 0 {
        lemma_pow1024_pos((e - 1) as nat);
    }
}

/// pow1024 grows with its exponent.
pub proof fn lemma_pow1024_increases(a: nat, b: nat)
    requires
        a <= b,
    ensures
        pow1024(a) <= pow1024(b),
    decreases b,
{
    if a < b {
        lemma_pow1024_increases(a, (b - 1) as nat);
        lemma_pow1024_pos((b - 1) as nat);
        assert(pow1024(b) == 1024 * pow1024((b - 1) as nat));
    }
}

/// The first powers of 1024, written out.
pub proof fn lemma_pow1024_values()
    ensures
        pow1024(0) == 1,
        pow1024(1) == 0x400,
        pow1024(2) == 0x100000,
        pow1024(3) == 0x40000000,
        pow1024(4) == 0x10000000000,
        pow1024(5) == 0x4000000000000,
        pow1024(6) == 0x1000000000000000,
        pow1024(7) == 0x400000000000000000,
{
    assert(pow1024(0) == 1);
    assert(pow1024(1) == 1024 * pow1024(0));
    assert(pow1024(2) == 1024 * pow1024(1));
    assert(pow1024(3) == 1024 * pow1024(2));
    assert(pow1024(4) == 1024 * pow1024(3));
    assert(pow1024(5) == 1024 * pow1024(4));
    assert(pow1024(6) == 1024 * pow1024(5));
    assert(pow1024(7) == 1024 * pow1024(6));
}

/// One filesystem entry: an identifier (its path) and a size in bytes.
/// Entries are compared by size alone; the path is opaque payload.
#[derive(Debug, Clone)]
pub struct FileData {
    pub path: String,
    pub size: u64,
}

impl FileData {
    pub fn new(path: String, size: u64) -> (fd: FileData)
        ensures
            fd.path == path,
            fd.size == size,
    {
        FileData { path, size }
    }

    /// This entry's size rendered for people, scaled through the units up
    /// to YB: `"999 Bytes"`, `"1 KB"`, `"1.50 KB"`.
    pub fn get_str_size(&self) -> (r: String)
        ensures
            r@ == size_chars(self.size as nat),
    {
        let size = self.size;
        let ghost sz: nat = size as nat;

        // Find the display scale: how often the size can be divided by
        // 1024 before it falls under 1024, at most eight times.
        let mut e: usize = 0;
        let mut scaled: u64 = size;
        proof {
            assert(pow1024(0) == 1);
        }
        while scaled >= 1024 && e < 8
            invariant
                e <= 6,
                sz == size as nat,
                scaled == sz / pow1024(e as nat),
                scale_exp_from(sz, e as nat) == scale_exp(sz),
            decreases 8 - e,
        {
            proof {
                let p = pow1024(e as nat) as int;
                lemma_pow1024_pos(e as nat);
                vstd::arithmetic::div_mod::lemma_fundamental_div_mod(sz as int, p);
                vstd::arithmetic::div_mod::lemma_mod_bound(sz as int, p);
                assert(sz >= p * 1024) by (nonlinear_arith)
                    requires
                        sz as int == p * (sz as int / p) + (sz as int % p),
                        sz as int % p >= 0,
                        sz as int / p >= 1024,
                        p >= 1,
                ;
                assert(pow1024((e + 1) as nat) == 1024 * pow1024(e as nat));
                assert(sz >= pow1024((e + 1) as nat));
                // A 64-bit size never reaches the seventh power of 1024,
                // so the scale stays well under the unit cap.
                if e >= 6 {
                    lemma_pow1024_values();
                    lemma_pow1024_increases(7, (e + 1) as nat);
                    assert(false);
                }
                vstd::arithmetic::div_mod::lemma_div_denominator(sz as int, p, 1024);
                assert(sz / pow1024((e + 1) as nat) == (sz / pow1024(e as nat)) / 1024);
            }
            scaled = scaled / 1024;
            e += 1;
        }
        proof {
            // The loop can only stop because the scaled value fell under
            // 1024, so the scale is settled here.
            let p = pow1024(e as nat) as int;
            lemma_pow1024_pos(e as nat);
            vstd::arithmetic::div_mod::lemma_fundamental_div_mod(sz as int, p);
            vstd::arithmetic::div_mod::lemma_mod_bound(sz as int, p);
            assert(sz < p * 1024) by (nonlinear_arith)
                requires
                    sz as int == p * (sz as int / p) + (sz as int % p),
                    sz as int % p < p,
                    sz as int / p <= 1023,
                    p >= 1,
            ;
            assert(pow1024((e + 1) as nat) == 1024 * pow1024(e as nat));
            assert(sz < pow1024((e + 1) as nat));
            assert(scale_exp(sz) == e as nat);
        }

        // The scale's power of 1024; it fits easily, the sixth power
        // being far below the 64-bit limit.
        let mut p: u64 = 1;
        let mut t: usize = 0;
        while t < e
            invariant
                t <= e,
                e <= 6,
                p == pow1024(t as nat),
            decreases e - t,
        {
            proof {
                assert(pow1024((t + 1) as nat) == 1024 * pow1024(t as nat));
                lemma_pow1024_increases((t + 1) as nat, 6);
                lemma_pow1024_values();
            }
            p = p * 1024;
            t += 1;
        }
        proof {
            lemma_pow1024_pos(e as nat);
        }

        let mut out = String::new();
        if size % p == 0 {
            // The scaled value is exact: no decimals.
            push_decimal(&mut out, size / p);
        } else {
            // Two decimals, rounded to the nearest hundredth, ties to even.
            let n128: u128 = 100 * (size as u128);
            let p128: u128 = p as u128;
            let q128: u128 = n128 / p128;
            let r128: u128 = n128 % p128;
            proof {
                vstd::arithmetic::div_mod::lemma_fundamental_div_mod(n128 as int, p128 as int);
                vstd::arithmetic::div_mod::lemma_mod_bound(n128 as int, p128 as int);
                assert(n128 < (p128 as int) * 102400) by (nonlinear_arith)
                    requires
                        n128 == 100 * (sz as int),
                        sz < (p128 as int) * 1024,
                ;
                assert(q128 < 102400) by (nonlinear_arith)
                    requires
                        n128 == (p128 as int) * (q128 as int) + (r128 as int),
                        0 <= r128 < p128,
                        n128 < (p128 as int) * 102400,
                        p128 >= 1,
                ;
            }
            let h128: u128 = if 2 * r128 < p128 {
                q128
            } else if 2 * r128 > p128 {
                q128 + 1
            } else if q128 % 2 == 0 {
                q128
            } else {
                q128 + 1
            };
            proof {
                assert(h128 == hundredths(sz, pow1024(e as nat)));
            }
            let h: u64 = h128 as u64;
            push_decimal(&mut out, h / 100);
            out.append(".");
            out.append(digit_str((h / 10) % 10));
            out.append(digit_str(h % 10));
            proof {
                reveal_strlit(".");
                let hn: nat = h as nat;
                assert(out@ =~= dec_chars(hn / 100) + seq![
                    '.',
                    digit_char((hn / 10) % 10),
                    digit_char(hn % 10),
                ]);
            }
        }
        out.append(" ");
        append_unit(&mut out, e);
        proof {
            reveal_strlit(" ");
            assert(out@ =~= size_chars(sz));
        }
        out
    }
}

/// One decimal digit as text.
fn digit_str(d: u64) -> (r: &'static str)
    requires
        d < 10,
    ensures
        r@ == seq![digit_char(d as nat)],
{
    let r: &'static str = if d == 0 {
        "0"
    } else if d == 1 {
        "1"
    } else if d == 2 {
        "2"
    } else if d == 3 {
        "3"
    } else if d == 4 {
        "4"
    } else if d == 5 {
        "5"
    } else if d == 6 {
        "6"
    } else if d == 7 {
        "7"
    } else if d == 8 {
        "8"
    } else {
        "9"
    };
    proof {
        reveal_strlit("0");
        reveal_strlit("1");
        reveal_strlit("2");
        reveal_strlit("3");
        reveal_strlit("4");
        reveal_strlit("5");
        reveal_strlit("6");
        reveal_strlit("7");
        reveal_strlit("8");
        reveal_strlit("9");
        assert(r@ =~= seq![digit_char(d as nat)]);
    }
    r
}

/// Appends `n` in decimal, most significant digit first.
fn push_decimal(out: &mut String, n: u64)
    ensures
        final(out)@ == old(out)@ + dec_chars(n as nat),
    decreases n,
{
    if n >= 10 {
        push_decimal(out, n / 10);
    }
    let ghost mid = out@;
    out.append(digit_str(n % 10));
    proof {
        if n >= 10 {
            assert(dec_chars(n as nat) == dec_chars((n as nat) / 10).push(
                digit_char((n as nat) % 10),
            ));
            assert(out@ =~= old(out)@ + dec_chars(n as nat));
        } else {
            assert(dec_chars(n as nat) == seq![digit_char(n as nat)]);
            assert(out@ =~= old(out)@ + dec_chars(n as nat));
        }
    }
}

/// Appends the unit name of a scale.
fn append_unit(out: &mut String, e: usize)
    ensures
        final(out)@ == old(out)@ + unit_chars(e as nat),
{
    let u: &'static str = if e == 0 {
        "Bytes"
    } else if e == 1 {
        "KB"
    } else if e == 2 {
        "MB"
    } else if e == 3 {
        "GB"
    } else if e == 4 {
        "TB"
    } else if e == 5 {
        "PB"
    } else if e == 6 {
        "EB"
    } else if e == 7 {
        "ZB"
    } else {
        "YB"
    };
    proof {
        reveal_strlit("Bytes");
        reveal_strlit("KB");
        reveal_strlit("MB");
        reveal_strlit("GB");
        reveal_strlit("TB");
        reveal_strlit("PB");
        reveal_strlit("EB");
        reveal_strlit("ZB");
        reveal_strlit("YB");
        assert(u@ =~= unit_chars(e as nat));
    }
    out.append(u);
}

/// A row ready for table rendering: the path and the already formatted
/// size string.
#[allow(non_snake_case)]
pub struct FileDataTable {
    pub Path: String,
    pub Size: String,
}

#[allow(non_snake_case)]
impl FileDataTable {
    pub fn new(Path: String, Size: String) -> (row: FileDataTable)
        ensures
            row.Path == Path,
            row.Size == Size,
    {
        FileDataTable { Path, Size }
    }
}

} // verus!
