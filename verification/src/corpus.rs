use vstd::prelude::*;
use vstd::string::StringExecFns;

use crate::lexer::{ascii_chars, string_from_ascii};

verus! {

/// The decimal digits of `n`, as ASCII bytes, most significant first.
pub open spec fn decimal_spec(n: nat) -> Seq<u8>
    decreases n,
{
    if n < 10 {
        seq![(48 + n) as u8]
    } else {
        decimal_spec(n / 10).push((48 + n % 10) as u8)
    }
}

/// The source text of an integer: its decimal digits, or `0 - ` and the digits of its magnitude
/// when it is negative (the language has no negative literals).
pub open spec fn literal_bytes_spec(value: i64) -> Seq<u8> {
    if value < 0 {
        seq![48u8, 32u8, 45u8, 32u8] + decimal_spec((-(value as int)) as nat)
    } else {
        decimal_spec(value as nat)
    }
}

pub open spec fn literal_spec(value: i64) -> Seq<char> {
    ascii_chars(literal_bytes_spec(value))
}

proof fn lemma_decimal_ascii(n: nat)
    ensures
        forall|i: int| 0 <= i < decimal_spec(n).len() ==> 48 <= #[trigger] decimal_spec(n)[i] < 58,
    decreases n,
{
    if n >= 10 {
        lemma_decimal_ascii(n / 10);
        let d = decimal_spec(n);
        assert forall|i: int| 0 <= i < d.len() implies 48 <= #[trigger] d[i] < 58 by {
            if i < d.len() - 1 {
                assert(d[i] == decimal_spec(n / 10)[i]);
            } else {
                assert(d[i] == (48 + n % 10) as u8);
            }
        }
    } else {
        assert(decimal_spec(n)[0] == (48 + n) as u8);
    }
}

fn push_decimal(n: u64, out: &mut Vec<u8>)
    ensures
        final(out)@ == old(out)@ + decimal_spec(n as nat),
    decreases n,
{
    if n >= 10 {
        push_decimal(n / 10, out);
    }
    out.push((48 + n % 10) as u8);
    proof {
        if n >= 10 {
            assert(old(out)@ + decimal_spec(n as nat) =~= old(out)@ + decimal_spec((n / 10) as nat) + seq![
                (48 + n % 10) as u8,
            ]);
        }
    }
}

/// The source text of an integer: its decimal digits, or `0 - ` and the digits of its magnitude
/// when it is negative.
pub fn literal(value: i64) -> (text: String)
    ensures
        text@ == literal_spec(value),
{
    let mut bytes: Vec<u8> = Vec::new();
    if value < 0 {
        bytes.push(48u8);
        bytes.push(32u8);
        bytes.push(45u8);
        bytes.push(32u8);
        let magnitude: u64 = if value == i64::MIN {
            9223372036854775808u64
        } else {
            (-value) as u64
        };
        push_decimal(magnitude, &mut bytes);
        proof {
            lemma_decimal_ascii(magnitude as nat);
            assert(bytes@ =~= literal_bytes_spec(value));
        }
    } else {
        push_decimal(value as u64, &mut bytes);
        proof {
            lemma_decimal_ascii(value as nat);
            assert(bytes@ =~= literal_bytes_spec(value));
        }
    }
    string_from_ascii(bytes)
}

/// A program of the arithmetic workload: `let x = a + b; return x * 2;`.
pub open spec fn arithmetic_spec(a: i64, b: i64) -> Seq<char> {
    "\n                let x = "@ + literal_spec(a) + " + "@ + literal_spec(b) + ";\n                return x * 2;\n                "@
}

fn arithmetic_program(a: i64, b: i64) -> (text: String)
    ensures
        text@ == arithmetic_spec(a, b),
{
    let text_a = literal(a);
    let text_b = literal(b);
    let mut text = String::from_str("\n                let x = ");
    text.append(text_a.as_str());
    text.append(" + ");
    text.append(text_b.as_str());
    text.append(";\n                return x * 2;\n                ");
    text
}

/// A program of the constant-branch workload: `let x = a;` and a branch on `x > b`.
pub open spec fn branch_spec(a: i64, b: i64) -> Seq<char> {
    "\n                let x = "@ + literal_spec(a) + ";\n\n                if x > "@ + literal_spec(b) + " {\n                    return x + 1;\n                } else {\n                    return x - 1;\n                }\n                "@
}

fn branch_program(a: i64, b: i64) -> (text: String)
    ensures
        text@ == branch_spec(a, b),
{
    let text_a = literal(a);
    let text_b = literal(b);
    let mut text = String::from_str("\n                let x = ");
    text.append(text_a.as_str());
    text.append(";\n\n                if x > ");
    text.append(text_b.as_str());
    text.append(" {\n                    return x + 1;\n                } else {\n                    return x - 1;\n                }\n                ");
    text
}

/// A program of the phi workload: `x` assigned in both branches of `if a >= b`.
pub open spec fn phi_spec(a: i64, b: i64) -> Seq<char> {
    "\n                let x = 0;\n\n                if "@ + literal_spec(a) + " >= "@ + literal_spec(b) + " {\n                    x = "@ + literal_spec(a) + " + 3;\n                } else {\n                    x = "@ + literal_spec(b) + " - 2;\n                }\n\n                return x;\n                "@
}

fn phi_program(a: i64, b: i64) -> (text: String)
    ensures
        text@ == phi_spec(a, b),
{
    let text_a = literal(a);
    let text_b = literal(b);
    let mut text = String::from_str("\n                let x = 0;\n\n                if ");
    text.append(text_a.as_str());
    text.append(" >= ");
    text.append(text_b.as_str());
    text.append(" {\n                    x = ");
    text.append(text_a.as_str());
    text.append(" + 3;\n                } else {\n                    x = ");
    text.append(text_b.as_str());
    text.append(" - 2;\n                }\n\n                return x;\n                ");
    text
}

/// A program of the nested-branch workload on `x`.
pub open spec fn nested_spec(x: i64) -> Seq<char> {
    "\n            let x = "@ + literal_spec(x) + ";\n\n            if x > 0 {\n                if x < 5 {\n                    return x * 10;\n                } else {\n                    return x + 100;\n                }\n            } else {\n                return 0 - x;\n            }\n            "@
}

fn nested_program(x: i64) -> (text: String)
    ensures
        text@ == nested_spec(x),
{
    let text_x = literal(x);
    let mut text = String::from_str("\n            let x = ");
    text.append(text_x.as_str());
    text.append(";\n\n            if x > 0 {\n                if x < 5 {\n                    return x * 10;\n                } else {\n                    return x + 100;\n                }\n            } else {\n                return 0 - x;\n            }\n            ");
    text
}

/// A program of the dead-expression workload: an unused product and `x + 7` returned.
pub open spec fn dead_spec(x: i64) -> Seq<char> {
    "\n            let unused = "@ + literal_spec(x) + " * "@ + literal_spec(x) + ";\n            let result = "@ + literal_spec(x) + " + 7;\n            return result;\n            "@
}

fn dead_program(x: i64) -> (text: String)
    ensures
        text@ == dead_spec(x),
{
    let text_x = literal(x);
    let mut text = String::from_str("\n            let unused = ");
    text.append(text_x.as_str());
    text.append(" * ");
    text.append(text_x.as_str());
    text.append(";\n            let result = ");
    text.append(text_x.as_str());
    text.append(" + 7;\n            return result;\n            ");
    text
}

/// The `i`-th program of the benchmark corpus: 441 arithmetic programs (`a` and `b` from -10 to
/// 10), 441 constant-branch programs (the same pairs), 289 phi programs (`a` and `b` from -8 to
/// 8), 17 nested-branch programs (`x` from -8 to 8), then 100 dead-expression programs (`x` from 1
/// to 100); within a workload the first value varies slowest.
pub open spec fn corpus_program_spec(i: int) -> Seq<char> {
    if i < 441 {
        arithmetic_spec((i / 21 - 10) as i64, (i % 21 - 10) as i64)
    } else if i < 882 {
        branch_spec(((i - 441) / 21 - 10) as i64, ((i - 441) % 21 - 10) as i64)
    } else if i < 1171 {
        phi_spec(((i - 882) / 17 - 8) as i64, ((i - 882) % 17 - 8) as i64)
    } else if i < 1188 {
        nested_spec((i - 1171 - 8) as i64)
    } else {
        dead_spec((i - 1188 + 1) as i64)
    }
}

/// Whether `corpus` holds the first programs of the benchmark corpus, in order.
pub open spec fn corpus_prefix(corpus: Seq<String>) -> bool {
    forall|j: int| 0 <= j < corpus.len() ==> (#[trigger] corpus[j])@ == corpus_program_spec(j)
}

proof fn lemma_grid(i: int, width: int, row: int, column: int)
    requires
        0 <= column < width,
        0 <= row,
        i == width * row + column,
    ensures
        i / width == row,
        i % width == column,
{
    vstd::arithmetic::mul::lemma_mul_is_commutative(width, row);
    vstd::arithmetic::div_mod::lemma_fundamental_div_mod_converse(i, width, row, column);
}

/// The deterministic benchmark corpus of the optimizer: 1,288 programs, each the text
/// `corpus_program_spec` gives for its position.
pub fn benchmark_programs() -> (corpus: Vec<String>)
    ensures
        corpus@.len() == 1288,
        corpus_prefix(corpus@),
{
    let mut corpus: Vec<String> = Vec::new();
    // Arithmetic workloads.
    let mut a: i64 = -10;
    while a <= 10
        invariant
            -10 <= a <= 11,
            corpus@.len() == 21 * (a + 10),
            corpus_prefix(corpus@),
        decreases 11 - a,
    {
        let mut b: i64 = -10;
        while b <= 10
            invariant
                -10 <= a <= 10,
                -10 <= b <= 11,
                corpus@.len() == 21 * (a + 10) + (b + 10),
                corpus_prefix(corpus@),
            decreases 11 - b,
        {
            let text = arithmetic_program(a, b);
            proof {
                lemma_grid(corpus@.len() as int, 21, a + 10, b + 10);
            }
            corpus.push(text);
            b = b + 1;
        }
        a = a + 1;
    }
    // Constant-branch workloads.
    let mut a: i64 = -10;
    while a <= 10
        invariant
            -10 <= a <= 11,
            corpus@.len() == 441 + 21 * (a + 10),
            corpus_prefix(corpus@),
        decreases 11 - a,
    {
        let mut b: i64 = -10;
        while b <= 10
            invariant
                -10 <= a <= 10,
                -10 <= b <= 11,
                corpus@.len() == 441 + 21 * (a + 10) + (b + 10),
                corpus_prefix(corpus@),
            decreases 11 - b,
        {
            let text = branch_program(a, b);
            proof {
                lemma_grid(corpus@.len() - 441, 21, a + 10, b + 10);
            }
            corpus.push(text);
            b = b + 1;
        }
        a = a + 1;
    }
    // Phi-producing assignments.
    let mut a: i64 = -8;
    while a <= 8
        invariant
            -8 <= a <= 9,
            corpus@.len() == 882 + 17 * (a + 8),
            corpus_prefix(corpus@),
        decreases 9 - a,
    {
        let mut b: i64 = -8;
        while b <= 8
            invariant
                -8 <= a <= 8,
                -8 <= b <= 9,
                corpus@.len() == 882 + 17 * (a + 8) + (b + 8),
                corpus_prefix(corpus@),
            decreases 9 - b,
        {
            let text = phi_program(a, b);
            proof {
                lemma_grid(corpus@.len() - 882, 17, a + 8, b + 8);
            }
            corpus.push(text);
            b = b + 1;
        }
        a = a + 1;
    }
    // Nested branch workloads.
    let mut x: i64 = -8;
    while x <= 8
        invariant
            -8 <= x <= 9,
            corpus@.len() == 1171 + (x + 8),
            corpus_prefix(corpus@),
        decreases 9 - x,
    {
        let text = nested_program(x);
        corpus.push(text);
        x = x + 1;
    }
    // Dead-expression workloads.
    let mut x: i64 = 1;
    while x <= 100
        invariant
            1 <= x <= 101,
            corpus@.len() == 1188 + (x - 1),
            corpus_prefix(corpus@),
        decreases 101 - x,
    {
        let text = dead_program(x);
        corpus.push(text);
        x = x + 1;
    }
    corpus
}

} // verus!
