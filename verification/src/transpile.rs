//! The transpiler: turn source code in the tape language into an
//! equivalent standalone Rust program, as the four files of a small
//! cargo project. Writing the files to disk is the caller's.

use vstd::prelude::*;

verus! {

/// The decimal digit character for a value below ten.
pub open spec fn digit_char(d: nat) -> char {
    if d == 0 {
        '0'
    } else if d == 1 {
        '1'
    } else if d == 2 {
        '2'
    } else if d == 3 {
        '3'
    } else if d == 4 {
        '4'
    } else if d == 5 {
        '5'
    } else if d == 6 {
        '6'
    } else if d == 7 {
        '7'
    } else if d == 8 {
        '8'
    } else {
        '9'
    }
}

/// The decimal digits of a number, most significant first.
pub open spec fn dec_digits(n: nat) -> Seq<char>
    decreases n,
{
    if n < 10 {
        seq![digit_char(n)]
    } else {
        dec_digits(n / 10) + seq![digit_char(n % 10)]
    }
}

/// The digit characters of the collected digit values, last collected
/// first.
spec fn rev_chars(ds: Seq<u8>) -> Seq<char>
    decreases ds.len(),
{
    if ds.len() == 0 {
        Seq::empty()
    } else {
        rev_chars(ds.drop_first()) + seq![digit_char(ds.first() as nat)]
    }
}

/// Collecting one more digit puts its character at the front.
proof fn lemma_rev_chars_push(ds: Seq<u8>, d: u8)
    ensures
        rev_chars(ds.push(d)) == seq![digit_char(d as nat)] + rev_chars(ds),
    decreases ds.len(),
{
    if ds.len() == 0 {
        assert(ds.push(d).drop_first() =~= Seq::<u8>::empty());
        assert(ds.push(d).first() == d);
        assert(rev_chars(ds.push(d).drop_first()) =~= Seq::<char>::empty());
        assert(rev_chars(ds) =~= Seq::<char>::empty());
        assert(rev_chars(ds.push(d)) =~= seq![digit_char(d as nat)] + rev_chars(ds));
    } else {
        assert(ds.push(d).drop_first() =~= ds.drop_first().push(d));
        assert(ds.push(d).first() == ds.first());
        lemma_rev_chars_push(ds.drop_first(), d);
        assert((seq![digit_char(d as nat)] + rev_chars(ds.drop_first())) + seq![
            digit_char(ds.first() as nat),
        ] =~= seq![digit_char(d as nat)] + rev_chars(ds));
    }
}

/// Append a digit character to the string.
fn append_digit(s: &mut String, d: u8)
    requires
        d < 10,
    ensures
        final(s)@ == old(s)@ + seq![digit_char(d as nat)],
{
    let piece: &str = if d == 0 {
        "0"
    } else if d == 1 {
        "1"
    } else if d == 2 {
        "2"
    } else if d == 3 {
        "3"
    } else if d == 4 {
        "4"
    } else if d == 5 {
        "5"
    } else if d == 6 {
        "6"
    } else if d == 7 {
        "7"
    } else if d == 8 {
        "8"
    } else {
        "9"
    };
    proof {
        reveal_strlit("0");
        reveal_strlit("1");
        reveal_strlit("2");
        reveal_strlit("3");
        reveal_strlit("4");
        reveal_strlit("5");
        reveal_strlit("6");
        reveal_strlit("7");
        reveal_strlit("8");
        reveal_strlit("9");
        assert(piece@ =~= seq![digit_char(d as nat)]);
    }
    s.append(piece);
}

/// Append the decimal digits of `n` to the string.
fn append_decimal(s: &mut String, n: usize)
    ensures
        final(s)@ == old(s)@ + dec_digits(n as nat),
{
    let mut digits: Vec<u8> = Vec::new();
    let mut m: usize = n;
    proof {
        assert((m % 10) < 10 && m / 10 < m || m < 10) by (nonlinear_arith);
    }
    let d0 = m % 10;
    digits.push(d0 as u8);
    proof {
        assert(digits@.drop_first() =~= Seq::<u8>::empty());
        assert(rev_chars(digits@.drop_first()) =~= Seq::<char>::empty());
        assert(digits@.first() == d0 as u8);
        assert(rev_chars(digits@) =~= seq![digit_char(d0 as nat)]);
        assert(m as nat % 10 == d0 as nat);
        if m < 10 {
            assert(m as nat == d0 as nat);
            assert(dec_digits(n as nat) =~= rev_chars(digits@));
        } else {
            assert(dec_digits(n as nat) == dec_digits((m as nat) / 10) + seq![
                digit_char(d0 as nat),
            ]);
            assert(dec_digits((m / 10) as nat) + rev_chars(digits@) =~= dec_digits(n as nat)) by {
                assert((m / 10) as nat == (m as nat) / 10) by (nonlinear_arith)
                    requires
                        m >= 0,
                ;
            }
        }
    }
    m = m / 10;
    while m > 0
        invariant
            forall|k: int| 0 <= k < digits@.len() ==> (#[trigger] digits@[k]) < 10,
            dec_digits(n as nat) == if m == 0 {
                rev_chars(digits@)
            } else {
                dec_digits(m as nat) + rev_chars(digits@)
            },
        decreases m,
    {
        let ghost pre = digits@;
        let d = m % 10;
        digits.push(d as u8);
        proof {
            lemma_rev_chars_push(pre, d as u8);
            assert((m as nat) % 10 == d as nat && (m / 10) as nat == (m as nat) / 10) by (
            nonlinear_arith)
                requires
                    m >= 1,
                    d == m % 10,
            ;
            if m < 10 {
                assert(dec_digits(m as nat) =~= seq![digit_char(d as nat)]);
                assert(dec_digits(m as nat) + rev_chars(pre) =~= rev_chars(digits@));
            } else {
                assert(dec_digits(m as nat) == dec_digits((m as nat) / 10) + seq![
                    digit_char(d as nat),
                ]);
                assert((dec_digits((m as nat) / 10) + seq![digit_char(d as nat)]) + rev_chars(pre)
                    =~= dec_digits((m as nat) / 10) + rev_chars(digits@));
            }
        }
        m = m / 10;
    }
    let total = digits.len();
    let mut idx: usize = total;
    proof {
        assert(digits@.subrange(idx as int, total as int) =~= Seq::<u8>::empty());
        assert(s@ + rev_chars(digits@.subrange(idx as int, total as int)) =~= s@);
    }
    while idx > 0
        invariant
            idx <= total,
            total == digits@.len(),
            forall|k: int| 0 <= k < total ==> (#[trigger] digits@[k]) < 10,
            dec_digits(n as nat) == rev_chars(digits@),
            s@ == old(s)@ + rev_chars(digits@.subrange(idx as int, total as int)),
        decreases idx,
    {
        idx = idx - 1;
        append_digit(s, digits[idx]);
        proof {
            assert(digits@.subrange(idx as int, total as int).drop_first() =~= digits@.subrange(
                idx as int + 1,
                total as int,
            ));
            assert(digits@.subrange(idx as int, total as int).first() == digits@[idx as int]);
            assert((old(s)@ + rev_chars(digits@.subrange(idx as int + 1, total as int))) + seq![
                digit_char(digits@[idx as int] as nat),
            ] =~= old(s)@ + rev_chars(digits@.subrange(idx as int, total as int)));
        }
    }
    proof {
        assert(digits@.subrange(0, total as int) =~= digits@);
    }
}

/// Group a program's characters into runs: each bracket stands alone
/// with count one; any other character is merged with an immediately
/// preceding run of the same character. The scan starts from a
/// sentinel run that is dropped at the end, so a leading run equal to
/// the sentinel's character disappears into it.
pub open spec fn rle_step(acc: Seq<(char, usize)>, c: char) -> Seq<(char, usize)> {
    if c == '[' || c == ']' {
        acc.push((c, 1usize))
    } else if acc.len() > 0 && acc.last().0 == c {
        acc.drop_last().push((c, (acc.last().1 + 1) as usize))
    } else {
        acc.push((c, 1usize))
    }
}

/// The grouped runs of a whole program, sentinel included.
pub open spec fn rle_runs(s: Seq<char>) -> Seq<(char, usize)>
    decreases s.len(),
{
    if s.len() == 0 {
        seq![(' ', 0usize)]
    } else {
        rle_step(rle_runs(s.drop_last()), s.last())
    }
}

/// What parsing a program yields: its grouped runs, without the
/// sentinel.
pub open spec fn parse_spec(s: Seq<char>) -> Seq<(char, usize)> {
    rle_runs(s).drop_first()
}

/// Group the program's characters into runs of equal commands; each
/// bracket is its own run.
pub fn parse_brainfuck(raw_brainfuck: String) -> (r: Vec<(char, usize)>)
    requires
        raw_brainfuck@.len() < usize::MAX,
    ensures
        r@ == parse_spec(raw_brainfuck@),
{
    let mut parsed: Vec<(char, usize)> = Vec::new();
    parsed.push((' ', 0));
    let n = raw_brainfuck.as_str().unicode_len();
    let mut i: usize = 0;
    while i < n
        invariant
            i <= n,
            n == raw_brainfuck@.len(),
            n < usize::MAX,
            parsed@.len() >= 1,
            forall|k: int| 0 <= k < parsed@.len() ==> (#[trigger] parsed@[k]).1 <= i,
            parsed@ == rle_runs(raw_brainfuck@.subrange(0, i as int)),
        decreases n - i,
    {
        let c = raw_brainfuck.as_str().get_char(i);
        proof {
            assert(raw_brainfuck@.subrange(0, i as int + 1).drop_last() =~= raw_brainfuck@.subrange(
                0,
                i as int,
            ));
            assert(raw_brainfuck@.subrange(0, i as int + 1).last() == c);
        }
        let last_element = parsed.len() - 1;
        if c == '[' || c == ']' {
            parsed.push((c, 1));
        } else {
            let last = parsed[last_element];
            if last.0 == c {
                parsed.set(last_element, (c, last.1 + 1));
                proof {
                    assert(parsed@ =~= rle_runs(raw_brainfuck@.subrange(0, i as int)).drop_last().push(
                        (c, (last.1 + 1) as usize),
                    ));
                }
            } else {
                parsed.push((c, 1));
            }
        }
        i = i + 1;
    }
    proof {
        assert(raw_brainfuck@.subrange(0, n as int) =~= raw_brainfuck@);
    }
    parsed.remove(0);
    proof {
        assert(parsed@ =~= rle_runs(raw_brainfuck@).drop_first());
    }
    parsed
}

/// Four spaces per indentation level.
pub open spec fn sp(ind: nat) -> Seq<char> {
    crate::text::repeat_seq("    "@, ind)
}

/// A character is one of the eight commands of the language.
pub open spec fn is_command(c: char) -> bool {
    c == '+' || c == '-' || c == '<' || c == '>' || c == '.' || c == ',' || c == '[' || c == ']'
}

/// The loop brackets among the runs never close more than is open:
/// starting from `ind` nested levels, each close bracket finds one to
/// close.
pub open spec fn ind_ok(parsed: Seq<(char, usize)>, ind: nat) -> bool
    decreases parsed.len(),
{
    if parsed.len() == 0 {
        true
    } else if parsed[0].0 == '[' {
        ind_ok(parsed.drop_first(), ind + 1)
    } else if parsed[0].0 == ']' {
        ind >= 1 && ind_ok(parsed.drop_first(), (ind - 1) as nat)
    } else {
        ind_ok(parsed.drop_first(), ind)
    }
}

/// The nesting level after all the runs.
pub open spec fn ind_after(parsed: Seq<(char, usize)>, ind: nat) -> nat
    decreases parsed.len(),
{
    if parsed.len() == 0 {
        ind
    } else if parsed[0].0 == '[' {
        ind_after(parsed.drop_first(), ind + 1)
    } else if parsed[0].0 == ']' {
        ind_after(parsed.drop_first(), if ind >= 1 {
            (ind - 1) as nat
        } else {
            0
        })
    } else {
        ind_after(parsed.drop_first(), ind)
    }
}

/// The statements generated for one run of a command at the given
/// nesting level.
pub open spec fn gen_one(c: char, cnt: nat, ind: nat) -> Seq<char> {
    if c == '+' {
        sp(ind) + "storage[ptr] = storage[ptr].wrapping_add(("@ + dec_digits(cnt)
            + " % 256_usize) as u8);\n"@
    } else if c == '-' {
        sp(ind) + "storage[ptr] = storage[ptr].wrapping_add(((-"@ + dec_digits(cnt)
            + " % 256_isize) + 256_isize) as u8);\n"@
    } else if c == '>' {
        sp(ind) + "ptr += "@ + dec_digits(cnt) + ";\n"@
    } else if c == '<' {
        sp(ind) + "if ptr < "@ + dec_digits(cnt) + " {\n"@ + sp(ind + 1)
            + "panic!(\"Data pointer index out of bounds!\");\n"@ + sp(ind) + "} else {\n"@ + sp(
            ind + 1,
        ) + "ptr -= "@ + dec_digits(cnt) + ";\n"@ + sp(ind) + "}\n"@
    } else if c == '.' {
        if cnt > 1 {
            sp(ind) + "print!(\"{}\", format!(\"{}\", storage[ptr] as char).repeat("@ + dec_digits(
                cnt,
            ) + "));\n"@
        } else {
            sp(ind) + "print!(\"{}\", storage[ptr] as char);\n"@
        }
    } else if c == ',' {
        if cnt > 1 {
            sp(ind) + "io::stdout().flush().unwrap();"@ + sp(ind) + "for _ in 0.."@ + dec_digits(
                cnt,
            ) + " {\n"@ + sp(ind + 1)
                + "stdin.lock().read_exact(unsafe {slice::from_raw_parts_mut(ptr::addr_of_mut!(storage[ptr]), 1)}).expect(\"Error while reading input!\");\n"@
                + sp(ind) + "}\n"@
        } else {
            sp(ind) + "io::stdout().flush().unwrap();"@ + sp(ind)
                + "stdin.lock().read_exact(unsafe {slice::from_raw_parts_mut(ptr::addr_of_mut!(storage[ptr]), 1)}).expect(\"Error while reading input!\");\n"@
        }
    } else if c == '[' {
        sp(ind) + "while storage[ptr] != 0 {\n"@
    } else if c == ']' {
        sp(if ind >= 1 {
            (ind - 1) as nat
        } else {
            0
        }) + "}\n"@
    } else {
        Seq::empty()
    }
}

/// The nesting level after one run.
pub open spec fn ind_next(c: char, ind: nat) -> nat {
    if c == '[' {
        ind + 1
    } else if c == ']' {
        if ind >= 1 {
            (ind - 1) as nat
        } else {
            0
        }
    } else {
        ind
    }
}

/// The statements generated for a sequence of runs at the given
/// nesting level.
pub open spec fn gen_elems(parsed: Seq<(char, usize)>, ind: nat) -> Seq<char>
    decreases parsed.len(),
{
    if parsed.len() == 0 {
        Seq::empty()
    } else {
        gen_one(parsed[0].0, parsed[0].1 as nat, ind) + gen_elems(
            parsed.drop_first(),
            ind_next(parsed[0].0, ind),
        )
    }
}

/// What generating the program body from a source text yields: the
/// statements for its runs starting one level deep, then a final
/// output flush and the closing brace of `main`.
pub open spec fn gen_rust_spec(raw: Seq<char>) -> Seq<char> {
    gen_elems(parse_spec(raw), 1) + sp(ind_after(parse_spec(raw), 1))
        + "io::stdout().flush().unwrap();"@ + "}\n"@
}

/// Runs are never more numerous than characters, sentinel included.
proof fn lemma_rle_len(s: Seq<char>)
    ensures
        rle_runs(s).len() <= s.len() + 1,
    decreases s.len(),
{
    if s.len() > 0 {
        lemma_rle_len(s.drop_last());
    }
}

/// Generate the Rust statements realizing the program: one block of
/// statements per run of commands, loops as `while` blocks, with the
/// final output flush and the closing brace of `main`. Every character
/// of the program must be one of the eight commands, with the loop
/// brackets matched so that the nesting never leaves `main`.
#[verifier::rlimit(100)]
#[verifier::spinoff_prover]
pub fn generate_rust_code(raw_brainfuck: String) -> (r: String)
    requires
        raw_brainfuck@.len() + 2 < usize::MAX,
        forall|j: int| 0 <= j < raw_brainfuck@.len() ==> is_command(#[trigger] raw_brainfuck@[j]),
        ind_ok(parse_spec(raw_brainfuck@), 1),
    ensures
        r@ == gen_rust_spec(raw_brainfuck@),
{
    proof {
        lemma_rle_len(raw_brainfuck@);
    }
    let ghost raw_chars = raw_brainfuck@;
    let parsed = parse_brainfuck(raw_brainfuck);
    let mut result = String::new();
    let mut indent: usize = 1;
    let n2 = parsed.len();
    let mut i: usize = 0;
    let ghost whole = parsed@;
    proof {
        assert(whole.subrange(0, n2 as int) =~= whole);
        assert(whole.subrange(i as int, n2 as int) =~= whole);
        assert(result@ + gen_elems(whole, 1) =~= gen_elems(whole, 1));
    }
    while i < n2
        invariant
            i <= n2,
            n2 == whole.len(),
            whole == parsed@,
            n2 + 2 < usize::MAX,
            indent <= i + 1,
            whole == parse_spec(raw_chars),
            forall|j: int| 0 <= j < raw_chars.len() ==> is_command(#[trigger] raw_chars[j]),
            ind_ok(whole.subrange(i as int, n2 as int), indent as nat),
            gen_elems(whole, 1) == result@ + gen_elems(
                whole.subrange(i as int, n2 as int),
                indent as nat,
            ),
            ind_after(whole, 1) == ind_after(whole.subrange(i as int, n2 as int), indent as nat),
        decreases n2 - i,
    {
        let (c, cnt) = parsed[i];
        let ghost pre = result@;
        let ghost pre_ind = indent as nat;
        let ghost suffix = whole.subrange(i as int, n2 as int);
        proof {
            assert(suffix[0] == whole[i as int]);
            assert(suffix.drop_first() =~= whole.subrange(i as int + 1, n2 as int));
            lemma_rle_chars(raw_chars);
            assert(whole[i as int] == rle_runs(raw_chars)[i as int + 1]);
            assert(raw_chars.contains(c)) by {
                assert(rle_runs(raw_chars).drop_first()[i as int] == rle_runs(
                    raw_chars,
                )[i as int + 1]);
            }
            let w = choose|w: int| 0 <= w < raw_chars.len() && raw_chars[w] == c;
            assert(is_command(raw_chars[w]));
        }
        if c == '+' {
            crate::text::append_repeat(&mut result, "    ", indent);
            result.append("storage[ptr] = storage[ptr].wrapping_add((");
            append_decimal(&mut result, cnt);
            result.append(" % 256_usize) as u8);\n");
        } else if c == '-' {
            crate::text::append_repeat(&mut result, "    ", indent);
            result.append("storage[ptr] = storage[ptr].wrapping_add(((-");
            append_decimal(&mut result, cnt);
            result.append(" % 256_isize) + 256_isize) as u8);\n");
        } else if c == '>' {
            crate::text::append_repeat(&mut result, "    ", indent);
            result.append("ptr += ");
            append_decimal(&mut result, cnt);
            result.append(";\n");
        } else if c == '<' {
            crate::text::append_repeat(&mut result, "    ", indent);
            result.append("if ptr < ");
            append_decimal(&mut result, cnt);
            result.append(" {\n");
            crate::text::append_repeat(&mut result, "    ", indent + 1);
            result.append("panic!(\"Data pointer index out of bounds!\");\n");
            crate::text::append_repeat(&mut result, "    ", indent);
            result.append("} else {\n");
            crate::text::append_repeat(&mut result, "    ", indent + 1);
            result.append("ptr -= ");
            append_decimal(&mut result, cnt);
            result.append(";\n");
            crate::text::append_repeat(&mut result, "    ", indent);
            result.append("}\n");
        } else if c == '.' {
            crate::text::append_repeat(&mut result, "    ", indent);
            if cnt > 1 {
                result.append("print!(\"{}\", format!(\"{}\", storage[ptr] as char).repeat(");
                append_decimal(&mut result, cnt);
                result.append("));\n");
            } else {
                result.append("print!(\"{}\", storage[ptr] as char);\n");
            }
        } else if c == ',' {
            crate::text::append_repeat(&mut result, "    ", indent);
            result.append("io::stdout().flush().unwrap();");
            crate::text::append_repeat(&mut result, "    ", indent);
            if cnt > 1 {
                result.append("for _ in 0..");
                append_decimal(&mut result, cnt);
                result.append(" {\n");
                crate::text::append_repeat(&mut result, "    ", indent + 1);
                result.append(
                    "stdin.lock().read_exact(unsafe {slice::from_raw_parts_mut(ptr::addr_of_mut!(storage[ptr]), 1)}).expect(\"Error while reading input!\");\n",
                );
                crate::text::append_repeat(&mut result, "    ", indent);
                result.append("}\n");
            } else {
                result.append(
                    "stdin.lock().read_exact(unsafe {slice::from_raw_parts_mut(ptr::addr_of_mut!(storage[ptr]), 1)}).expect(\"Error while reading input!\");\n",
                );
            }
        } else if c == '[' {
            crate::text::append_repeat(&mut result, "    ", indent);
            result.append("while storage[ptr] != 0 {\n");
            indent = indent + 1;
        } else {
            indent = indent - 1;
            crate::text::append_repeat(&mut result, "    ", indent);
            result.append("}\n");
        }
        proof {
            assert(result@ =~= pre + gen_one(c, cnt as nat, pre_ind));
            assert(indent as nat == ind_next(c, pre_ind));
            assert(gen_elems(suffix, pre_ind) == gen_one(c, cnt as nat, pre_ind) + gen_elems(
                suffix.drop_first(),
                ind_next(c, pre_ind),
            ));
            assert(gen_elems(whole, 1) =~= (pre + gen_one(c, cnt as nat, pre_ind)) + gen_elems(
                whole.subrange(i as int + 1, n2 as int),
                indent as nat,
            ));
        }
        i = i + 1;
    }
    proof {
        assert(whole.subrange(n2 as int, n2 as int) =~= Seq::<(char, usize)>::empty());
        assert(result@ + gen_elems(whole.subrange(n2 as int, n2 as int), indent as nat)
            =~= result@);
    }
    crate::text::append_repeat(&mut result, "    ", indent);
    result.append("io::stdout().flush().unwrap();");
    result.append("}\n");
    proof {
        assert(result@ =~= gen_rust_spec(raw_chars));
    }
    result
}

/// The manifest of the generated project, for the given package name.
pub open spec fn cargo_toml_text(name: Seq<char>) -> Seq<char> {
    "[package]\nname = \""@ + name + "\"\nversion = \"0.1.0\"\nedition = \"2021\"\n\n[dependencies]\n"@
}

/// Generate the manifest of the produced project, naming the package
/// after the source file's stem.
pub fn generate_cargo_toml(name: &str) -> (r: String)
    ensures
        r@ == cargo_toml_text(name@),
{
    let mut cargo_toml = String::new();
    cargo_toml.append("[package]\nname = \"");
    cargo_toml.append(name);
    cargo_toml.append("\"\nversion = \"0.1.0\"\nedition = \"2021\"\n\n[dependencies]\n");
    cargo_toml
}

/// The cargo configuration of every produced project.
pub open spec fn generated_config_text() -> Seq<char> {
    "[target.aarch64-unknown-linux-gnu]\nrustflags = [\"-C\", \"target-feature=+crt-static\"]\n\n[target.i686-pc-windows-gnu]\nrustflags = [\"-C\", \"target-feature=+crt-static\"]\n\n[target.i686-pc-windows-msvc]\nrustflags = [\"-C\", \"target-feature=+crt-static\"]\n\n[target.i686-unknown-linux-gnu]\nrustflags = [\"-C\", \"target-feature=+crt-static\"]\n\n[target.x86_64-apple-darwin]\nrustflags = [\"-C\", \"target-feature=+crt-static\"]\n\n[target.x86_64-pc-windows-gnu]\nrustflags = [\"-C\", \"target-feature=+crt-static\"]\n\n[target.x86_64-pc-windows-msvc]\nrustflags = [\"-C\", \"target-feature=+crt-static\"]\n\n[target.x86_64-unknown-linux-gnu]\nrustflags = [\"-C\", \"target-feature=+crt-static\"]\n"@
}

/// The fixed head of every produced program's main file.
pub open spec fn main_head_text() -> Seq<char> {
    "#![allow(unused_imports)]\n\nuse std::io::{self, Read, Write};\nuse std::ptr;\nuse std::slice;\n\nmod storage;\nuse storage::Storage;\n\n\nfn main() {\n    let mut storage = Storage::default();\n    let mut ptr: usize = 0;\n    #[allow(unused_variables)]\n    let stdin = io::stdin();\n\n"@
}

/// Generate the cargo configuration of the produced project: static
/// linking for the major platforms.
pub fn generate_config_toml() -> (r: String)
    ensures
        r@ == generated_config_text(),
{
    String::from_str(
        "[target.aarch64-unknown-linux-gnu]\nrustflags = [\"-C\", \"target-feature=+crt-static\"]\n\n[target.i686-pc-windows-gnu]\nrustflags = [\"-C\", \"target-feature=+crt-static\"]\n\n[target.i686-pc-windows-msvc]\nrustflags = [\"-C\", \"target-feature=+crt-static\"]\n\n[target.i686-unknown-linux-gnu]\nrustflags = [\"-C\", \"target-feature=+crt-static\"]\n\n[target.x86_64-apple-darwin]\nrustflags = [\"-C\", \"target-feature=+crt-static\"]\n\n[target.x86_64-pc-windows-gnu]\nrustflags = [\"-C\", \"target-feature=+crt-static\"]\n\n[target.x86_64-pc-windows-msvc]\nrustflags = [\"-C\", \"target-feature=+crt-static\"]\n\n[target.x86_64-unknown-linux-gnu]\nrustflags = [\"-C\", \"target-feature=+crt-static\"]\n",
    )
}

/// Generate the fixed head of the produced program's main file: the
/// imports, the storage module, and the opening of `main` with the
/// store, the data pointer and the input handle.
pub fn generate_main_rs() -> (r: String)
    ensures
        r@ == main_head_text(),
{
    String::from_str(
        "#![allow(unused_imports)]\n\nuse std::io::{self, Read, Write};\nuse std::ptr;\nuse std::slice;\n\nmod storage;\nuse storage::Storage;\n\n\nfn main() {\n    let mut storage = Storage::default();\n    let mut ptr: usize = 0;\n    #[allow(unused_variables)]\n    let stdin = io::stdin();\n\n",
    )
}

/// The source of the byte-store module shipped with the produced
/// project.
pub open spec fn storage_module_text() -> Seq<char> {
    "use std::ops::{Index, IndexMut};\n\n\n#[derive(Debug, Default)]\npub struct Storage {\n    data: Vec<u8>,\n}\n\nimpl Index<usize> for Storage {\n    type Output = u8;\n\n    fn index(&self, index: usize) -> &Self::Output {\n        if index + 1 > self.data.len() {\n            &0_u8\n        } else {\n            &self.data[index]\n        }\n    }\n}\n\nimpl IndexMut<usize> for Storage {\n    fn index_mut(&mut self, index: usize) -> &mut Self::Output {\n        if index + 1 > self.data.len() {\n            self.data.resize(index + 1, 0);\n        }\n        &mut self.data[index]\n    }\n}\n"@
}

/// The files of a produced project: a manifest, a cargo
/// configuration, the main source file and the byte-store module.
pub struct GeneratedProject {
    /// Contents of the project's Cargo.toml.
    pub cargo_toml: String,
    /// Contents of the project's .cargo/config.toml.
    pub config_toml: String,
    /// Contents of the project's src/main.rs.
    pub main_rs: String,
    /// Contents of the project's src/storage.rs.
    pub storage_rs: String,
}

/// Transpile source code in the tape language into an equivalent
/// standalone Rust project, returning the contents of its four files;
/// the caller writes them to disk and builds them. The package is
/// named after the source file's stem, handed in as `crate_name`.
pub fn transpile(brainfuck_code: String, crate_name: &str) -> (r: GeneratedProject)
    requires
        brainfuck_code@.len() + 2 < usize::MAX,
        forall|j: int| 0 <= j < brainfuck_code@.len() ==> is_command(#[trigger] brainfuck_code@[j]),
        ind_ok(parse_spec(brainfuck_code@), 1),
    ensures
        r.cargo_toml@ == cargo_toml_text(crate_name@),
        r.config_toml@ == generated_config_text(),
        r.main_rs@ == main_head_text() + gen_rust_spec(brainfuck_code@),
        r.storage_rs@ == storage_module_text(),
{
    let cargo_toml = generate_cargo_toml(crate_name);
    let config_toml = generate_config_toml();
    let storage_rs = String::from_str(
        "use std::ops::{Index, IndexMut};\n\n\n#[derive(Debug, Default)]\npub struct Storage {\n    data: Vec<u8>,\n}\n\nimpl Index<usize> for Storage {\n    type Output = u8;\n\n    fn index(&self, index: usize) -> &Self::Output {\n        if index + 1 > self.data.len() {\n            &0_u8\n        } else {\n            &self.data[index]\n        }\n    }\n}\n\nimpl IndexMut<usize> for Storage {\n    fn index_mut(&mut self, index: usize) -> &mut Self::Output {\n        if index + 1 > self.data.len() {\n            self.data.resize(index + 1, 0);\n        }\n        &mut self.data[index]\n    }\n}\n",
    );
    let mut main_rs = generate_main_rs();
    let body = generate_rust_code(brainfuck_code);
    main_rs.append(body.as_str());
    GeneratedProject { cargo_toml, config_toml, main_rs, storage_rs }
}

/// Every run after the sentinel carries a character of the text.
proof fn lemma_rle_chars(s: Seq<char>)
    ensures
        forall|k: int|
            1 <= k < rle_runs(s).len() ==> s.contains(#[trigger] rle_runs(s)[k].0),
    decreases s.len(),
{
    if s.len() > 0 {
        lemma_rle_chars(s.drop_last());
        assert forall|k: int| 1 <= k < rle_runs(s).len() implies s.contains(
            #[trigger] rle_runs(s)[k].0,
        ) by {
            let acc = rle_runs(s.drop_last());
            let c = s.last();
            assert(s[s.len() - 1] == c);
            if k < acc.len() && rle_runs(s)[k] == acc[k] {
                let w = choose|w: int| 0 <= w < s.drop_last().len() && s.drop_last()[w] == acc[k].0;
                if s.drop_last().contains(acc[k].0) {
                    assert(s[w] == acc[k].0);
                }
            } else {
                assert(rle_runs(s)[k].0 == c);
            }
        }
    }
}

} // verus!
