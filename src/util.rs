use vstd::prelude::*;

verus! {

pub open spec fn digit_char(d: nat) -> char {
    if d == 0 {
        '0'
    } else if d == 1 {
        '1'
    } else if d == 2 {
        '2'
    } else if d == 3 {
        '3'
    } else if d == 4 {
        '4'
    } else if d == 5 {
        '5'
    } else if d == 6 {
        '6'
    } else if d == 7 {
        '7'
    } else if d == 8 {
        '8'
    } else {
        '9'
    }
}

/// The decimal text of a natural number, without leading zeros.
pub open spec fn decimal_text(n: nat) -> Seq<char>
    decreases n,
{
    if n < 10 {
        seq![digit_char(n)]
    } else {
        decimal_text(n / 10) + seq![digit_char(n % 10)]
    }
}

fn digit_str(d: usize) -> (r: &'static str)
    requires
        d < 10,
    ensures
        r@ == seq![digit_char(d as nat)],
{
    proof {
        reveal_strlit("0");
        reveal_strlit("1");
        reveal_strlit("2");
        reveal_strlit("3");
        reveal_strlit("4");
        reveal_strlit("5");
        reveal_strlit("6");
        reveal_strlit("7");
        reveal_strlit("8");
        reveal_strlit("9");
    }
    let r = if d == 0 {
        "0"
    } else if d == 1 {
        "1"
    } else if d == 2 {
        "2"
    } else if d == 3 {
        "3"
    } else if d == 4 {
        "4"
    } else if d == 5 {
        "5"
    } else if d == 6 {
        "6"
    } else if d == 7 {
        "7"
    } else if d == 8 {
        "8"
    } else {
        "9"
    };
    assert(r@ =~= seq![digit_char(d as nat)]);
    r
}

/// The decimal text of `n`.
pub fn usize_to_decimal(n: usize) -> (r: String)
    ensures
        r@ == decimal_text(n as nat),
    decreases n,
{
    if n < 10 {
        String::from_str(digit_str(n))
    } else {
        let mut r = usize_to_decimal(n / 10);
        r.append(digit_str(n % 10));
        r
    }
}

/// The 1-based line and character of position `k` of `s`.
pub open spec fn position_of(s: Seq<char>, k: nat) -> (nat, nat)
    decreases k,
{
    if k == 0 {
        (1, 1)
    } else {
        let (line, ch) = position_of(s, (k - 1) as nat);
        if s[k - 1] == '\n' {
            (line + 1, 1)
        } else {
            (line, ch + 1)
        }
    }
}

proof fn lemma_position_bounded(s: Seq<char>, k: nat)
    ensures
        1 <= position_of(s, k).0 <= k + 1,
        1 <= position_of(s, k).1 <= k + 1,
    decreases k,
{
    if k > 0 {
        lemma_position_bounded(s, (k - 1) as nat);
    }
}

/// The line and character (both counted from 1) of a character position in a
/// source text, or an error for a position past its end.
pub fn get_position_from_char_index(char_index: usize, file_content: &String) -> (r: Result<(usize, usize), &'static str>)
    ensures
        r is Err <==> char_index >= file_content@.len(),
        r is Ok ==> r->Ok_0.0 == position_of(file_content@, char_index as nat).0
            && r->Ok_0.1 == position_of(file_content@, char_index as nat).1,
{
    let n = file_content.as_str().unicode_len();
    if char_index >= n {
        Err("character index bigger than file content (something horrible must have gone wrong)")
    } else {
        let ghost s = file_content@;
        let mut line_count: usize = 1;
        let mut char_count: usize = 1;
        let mut i: usize = 0;
        while i < char_index
            invariant
                char_index < n,
                n == s.len(),
                s == file_content@,
                i <= char_index,
                line_count == position_of(s, i as nat).0,
                char_count == position_of(s, i as nat).1,
            decreases char_index - i,
        {
            proof {
                lemma_position_bounded(s, i as nat);
            }
            char_count += 1;
            if file_content.as_str().get_char(i) == '\n' {
                line_count += 1;
                char_count = 1;
            }
            i += 1;
        }
        Ok((line_count, char_count))
    }
}

} // verus!
