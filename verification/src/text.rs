//! Lines, words and numbers of the text formats that the graphs and the
//! decompositions are written in.

use vstd::prelude::*;

verus! {

/// The pieces of `s` between the separators: one more piece than there are
/// separators, empty pieces included.
pub open spec fn split_at(s: Seq<u8>, sep: u8) -> Seq<Seq<u8>>
    decreases s.len(),
{
    if s.len() == 0 {
        seq![Seq::<u8>::empty()]
    } else {
        let head = split_at(s.drop_last(), sep);
        if s.last() == sep {
            head.push(Seq::<u8>::empty())
        } else {
            head.drop_last().push(head.last().push(s.last()))
        }
    }
}

/// There is always at least one piece.
pub proof fn lemma_split_has_pieces(s: Seq<u8>, sep: u8)
    ensures
        split_at(s, sep).len() >= 1,
    decreases s.len(),
{
    if s.len() > 0 {
        lemma_split_has_pieces(s.drop_last(), sep);
    }
}

/// The contents of the vectors.
pub open spec fn views(pieces: Seq<Vec<u8>>) -> Seq<Seq<u8>> {
    Seq::new(pieces.len(), |i: int| pieces[i]@)
}

/// The line without a carriage return at its end.
pub open spec fn without_return(line: Seq<u8>) -> Seq<u8> {
    if line.len() > 0 && line.last() == 13 {
        line.drop_last()
    } else {
        line
    }
}

/// The lines of a text: the pieces between the line feeds, each without
/// a carriage return at its end. The end of the text also ends a line: a
/// text that ends with a line feed has no empty last line.
pub open spec fn lines_of(text: Seq<u8>) -> Seq<Seq<u8>> {
    let pieces = split_at(text, 10);
    let kept = if pieces.last().len() == 0 {
        pieces.drop_last()
    } else {
        pieces
    };
    Seq::new(kept.len(), |i: int| without_return(kept[i]))
}

/// The words of a line: the pieces between the spaces.
pub open spec fn words_of(line: Seq<u8>) -> Seq<Seq<u8>> {
    split_at(line, 32)
}

/// The byte is a decimal digit.
pub open spec fn is_digit(b: u8) -> bool {
    48 <= b <= 57
}

/// The number that the digits stand for.
pub open spec fn value_of(digits: Seq<u8>) -> nat
    decreases digits.len(),
{
    if digits.len() == 0 {
        0
    } else {
        value_of(digits.drop_last()) * 10 + (digits.last() - 48) as nat
    }
}

/// The number that the word stands for, if it is a number that fits into
/// 64 bits: the word is not empty and made of decimal digits.
pub open spec fn number_of(word: Seq<u8>) -> Option<u64> {
    if word.len() > 0 && (forall|i: int| 0 <= i < word.len() ==> is_digit(#[trigger] word[i]))
        && value_of(word) <= u64::MAX {
        Some(value_of(word) as u64)
    } else {
        None
    }
}

/// The value of a number grows with every digit that is appended.
pub proof fn lemma_value_grows(digits: Seq<u8>, n: int)
    requires
        0 <= n <= digits.len(),
        forall|i: int| 0 <= i < digits.len() ==> is_digit(#[trigger] digits[i]),
    ensures
        value_of(digits.take(n)) <= value_of(digits),
    decreases digits.len() - n,
{
    if n < digits.len() {
        let next = digits.take(n + 1);
        assert(next.drop_last() == digits.take(n));
        assert(next.last() == digits[n]);
        lemma_value_grows(digits, n + 1);
    } else {
        assert(digits.take(n) == digits);
    }
}

/// The pieces of the text between the separators.
pub fn split(bytes: &[u8], sep: u8) -> (pieces: Vec<Vec<u8>>)
    ensures
        views(pieces@) == split_at(bytes@, sep),
{
    let mut done: Vec<Vec<u8>> = Vec::new();
    let mut current: Vec<u8> = Vec::new();
    let mut i: usize = 0;
    assert(bytes@.take(0) == Seq::<u8>::empty());
    assert(views(done@).push(current@) =~= seq![Seq::<u8>::empty()]);
    while i < bytes.len()
        invariant
            i <= bytes.len(),
            views(done@).push(current@) == split_at(bytes@.take(i as int), sep),
        decreases bytes.len() - i,
    {
        let b: u8 = bytes[i];
        let ghost sofar = bytes@.take(i as int);
        let ghost next = bytes@.take(i + 1);
        let ghost head = split_at(sofar, sep);
        let ghost old_done = done@;
        let ghost old_current = current@;
        proof {
            assert(next.drop_last() == sofar);
            assert(next.last() == b);
            assert(head.last() == old_current);
            assert(head.drop_last() =~= views(old_done));
        }
        if b == sep {
            done.push(current);
            current = Vec::new();
            assert(views(done@) =~= head);
            assert(views(done@).push(current@) =~= head.push(Seq::<u8>::empty()));
        } else {
            current.push(b);
            assert(views(done@).push(current@) =~= head.drop_last().push(head.last().push(b)));
        }
        i = i + 1;
    }
    assert(bytes@.take(bytes@.len() as int) == bytes@);
    let ghost before = views(done@).push(current@);
    done.push(current);
    assert(views(done@) =~= before);
    done
}

/// The lines of the text.
pub fn lines(text: &[u8]) -> (r: Vec<Vec<u8>>)
    ensures
        views(r@) == lines_of(text@),
{
    let mut pieces = split(text, 10);
    proof {
        lemma_split_has_pieces(text@, 10);
    }
    let ghost all = views(pieces@);
    if pieces[pieces.len() - 1].len() == 0 {
        pieces.pop();
        assert(views(pieces@) =~= all.drop_last());
    }
    let ghost kept = views(pieces@);
    let mut r: Vec<Vec<u8>> = Vec::new();
    let mut i: usize = 0;
    while i < pieces.len()
        invariant
            i <= pieces.len(),
            kept == views(pieces@),
            r@.len() == i,
            forall|j: int| 0 <= j < i ==> (#[trigger] r@[j])@ == without_return(kept[j]),
        decreases pieces.len() - i,
    {
        let piece = &pieces[i];
        let mut line: Vec<u8> = Vec::new();
        let keep: usize = if piece.len() > 0 && piece[piece.len() - 1] == 13 {
            piece.len() - 1
        } else {
            piece.len()
        };
        let mut k: usize = 0;
        while k < keep
            invariant
                k <= keep,
                keep <= piece@.len(),
                line@ == piece@.take(k as int),
            decreases keep - k,
        {
            line.push(piece[k]);
            assert(piece@.take(k + 1) == piece@.take(k as int).push(piece@[k as int]));
            k = k + 1;
        }
        proof {
            assert(kept[i as int] == piece@);
            if keep == piece@.len() {
                assert(piece@.take(keep as int) == piece@);
            } else {
                assert(piece@.take(keep as int) == piece@.drop_last());
            }
        }
        r.push(line);
        i = i + 1;
    }
    assert(views(r@) =~= lines_of(text@));
    r
}

/// The number that the word stands for.
pub fn parse_number(word: &Vec<u8>) -> (r: Option<u64>)
    ensures
        r == number_of(word@),
{
    if word.len() == 0 {
        return None;
    }
    let mut value: u64 = 0;
    let mut i: usize = 0;
    assert(word@.take(0) == Seq::<u8>::empty());
    while i < word.len()
        invariant
            i <= word.len(),
            forall|j: int| 0 <= j < i ==> is_digit(#[trigger] word@[j]),
            value == value_of(word@.take(i as int)),
        decreases word.len() - i,
    {
        let b: u8 = word[i];
        if b < 48 || b > 57 {
            return None;
        }
        let ghost next = word@.take(i + 1);
        proof {
            assert(next.drop_last() == word@.take(i as int));
            assert(next.last() == b);
        }
        let digit: u64 = (b - 48) as u64;
        if value > (u64::MAX - digit) / 10 {
            proof {
                // the number is too large, whatever digits follow
                assert(value_of(next) > u64::MAX);
                if forall|j: int| 0 <= j < word@.len() ==> is_digit(#[trigger] word@[j]) {
                    lemma_value_grows(word@, i + 1);
                }
            }
            return None;
        }
        value = value * 10 + digit;
        i = i + 1;
    }
    assert(word@.take(word@.len() as int) == word@);
    Some(value)
}

} // verus!
