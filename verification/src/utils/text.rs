//! Plain text: substrings, decimal numbers, padding and lists.
use vstd::prelude::*;

verus! {

/// Whether `needle` is a contiguous part of `hay`.
pub open spec fn within(needle: Seq<char>, hay: Seq<char>) -> bool {
    exists|i: int| #[trigger] starts_at(needle, hay, i)
}

/// Whether `needle` is the part of `hay` that starts at `i`.
pub open spec fn starts_at(needle: Seq<char>, hay: Seq<char>, i: int) -> bool {
    0 <= i && i + needle.len() <= hay.len() && hay.subrange(i, i + needle.len()) == needle
}

/// Whether `needle` is a contiguous part of `hay`.
pub fn contains(hay: &str, needle: &str) -> (found: bool)
    ensures
        found == within(needle@, hay@),
{
    let n: usize = hay.unicode_len();
    let m: usize = needle.unicode_len();
    if m > n {
        return false;
    }
    let mut i: usize = 0;
    while i <= n - m
        invariant
            n == hay@.len(),
            m == needle@.len(),
            m <= n,
            i <= n - m + 1,
            forall|j: int| 0 <= j < i ==> !#[trigger] starts_at(needle@, hay@, j),
        ensures
            forall|j: int| 0 <= j <= n - m ==> !#[trigger] starts_at(needle@, hay@, j),
        decreases n - m + 1 - i,
    {
        let mut k: usize = 0;
        while k < m && hay.get_char(i + k) == needle.get_char(k)
            invariant
                n == hay@.len(),
                m == needle@.len(),
                m <= n,
                i <= n - m,
                k <= m,
                forall|j: int| 0 <= j < k ==> #[trigger] hay@[i + j] == needle@[j],
            decreases m - k,
        {
            k = k + 1;
        }
        if k == m {
            assert(hay@.subrange(i as int, i + m) =~= needle@) by {
                assert forall|j: int| 0 <= j < m implies hay@.subrange(i as int, i + m)[j]
                    == needle@[j] by {
                    assert(hay@[i + j] == needle@[j]);
                }
            }
            assert(starts_at(needle@, hay@, i as int));
            return true;
        }
        assert(!starts_at(needle@, hay@, i as int)) by {
            if starts_at(needle@, hay@, i as int) {
                assert(hay@.subrange(i as int, i + m)[k as int] == needle@[k as int]);
            }
        }
        if i == n - m {
            break ;
        }
        i = i + 1;
    }
    proof {
        assert forall|j: int| !#[trigger] starts_at(needle@, hay@, j) by {
            if starts_at(needle@, hay@, j) {
                assert(0 <= j <= n - m);
            }
        }
    }
    false
}

/// One decimal digit.
pub open spec fn digit(d: int) -> Seq<char> {
    if d == 0 {
        "0"@
    } else if d == 1 {
        "1"@
    } else if d == 2 {
        "2"@
    } else if d == 3 {
        "3"@
    } else if d == 4 {
        "4"@
    } else if d == 5 {
        "5"@
    } else if d == 6 {
        "6"@
    } else if d == 7 {
        "7"@
    } else if d == 8 {
        "8"@
    } else {
        "9"@
    }
}

/// A number in decimal digits.
pub open spec fn decimal(n: int) -> Seq<char>
    decreases n,
{
    if n < 10 {
        digit(n)
    } else {
        decimal(n / 10) + digit(n % 10)
    }
}

fn digit_text(d: usize) -> (text: &'static str)
    ensures
        text@ == digit(d as int),
{
    if d == 0 {
        "0"
    } else if d == 1 {
        "1"
    } else if d == 2 {
        "2"
    } else if d == 3 {
        "3"
    } else if d == 4 {
        "4"
    } else if d == 5 {
        "5"
    } else if d == 6 {
        "6"
    } else if d == 7 {
        "7"
    } else if d == 8 {
        "8"
    } else {
        "9"
    }
}

/// A number in decimal digits.
pub fn decimal_text(n: usize) -> (text: String)
    ensures
        text@ == decimal(n as int),
    decreases n,
{
    if n < 10 {
        digit_text(n).to_owned()
    } else {
        decimal_text(n / 10).concat(digit_text(n % 10))
    }
}

/// `n` spaces.
pub open spec fn spaces(n: int) -> Seq<char>
    decreases n,
{
    if n <= 0 {
        Seq::empty()
    } else {
        spaces(n - 1) + " "@
    }
}

/// `text`, followed by spaces up to `width` characters.
pub open spec fn padded_right(text: Seq<char>, width: int) -> Seq<char> {
    text + spaces(width - text.len())
}

/// `text`, preceded by spaces up to `width` characters.
pub open spec fn padded_left(text: Seq<char>, width: int) -> Seq<char> {
    spaces(width - text.len()) + text
}

fn spaces_text(n: usize) -> (text: String)
    ensures
        text@ == spaces(n as int),
{
    let mut text = String::new();
    let mut i: usize = 0;
    while i < n
        invariant
            i <= n,
            text@ == spaces(i as int),
        decreases n - i,
    {
        text.append(" ");
        i = i + 1;
    }
    text
}

/// `text`, followed by spaces up to `width` characters.
pub fn pad_right(text: &str, width: usize) -> (padded: String)
    ensures
        padded@ == padded_right(text@, width as int),
{
    let n: usize = text.unicode_len();
    let gap: usize = if n < width {
        width - n
    } else {
        0
    };
    let padded = text.to_owned().concat(spaces_text(gap).as_str());
    assert(padded@ =~= padded_right(text@, width as int));
    padded
}

/// `text`, preceded by spaces up to `width` characters.
pub fn pad_left(text: &str, width: usize) -> (padded: String)
    ensures
        padded@ == padded_left(text@, width as int),
{
    let n: usize = text.unicode_len();
    let gap: usize = if n < width {
        width - n
    } else {
        0
    };
    let padded = spaces_text(gap).concat(text);
    assert(padded@ =~= padded_left(text@, width as int));
    padded
}

/// The texts one after another, with `gap` between them.
pub open spec fn joined(texts: Seq<Seq<char>>, gap: Seq<char>) -> Seq<char>
    decreases texts.len(),
{
    if texts.len() == 0 {
        Seq::empty()
    } else if texts.len() == 1 {
        texts[0]
    } else {
        joined(texts.drop_last(), gap) + gap + texts.last()
    }
}

/// The characters of each string.
pub open spec fn views(texts: Seq<String>) -> Seq<Seq<char>> {
    texts.map_values(|t: String| t@)
}

/// The texts one after another, with `gap` between them.
pub fn join(texts: &Vec<String>, gap: &str) -> (text: String)
    ensures
        text@ == joined(views(texts@), gap@),
{
    let mut text = String::new();
    let mut i: usize = 0;
    assert(views(texts@).take(0) =~= Seq::<Seq<char>>::empty());
    while i < texts.len()
        invariant
            i <= texts@.len(),
            text@ == joined(views(texts@).take(i as int), gap@),
        decreases texts@.len() - i,
    {
        if i > 0 {
            text.append(gap);
        }
        text.append(texts[i].as_str());
        proof {
            let next = views(texts@).take(i + 1);
            assert(next.drop_last() =~= views(texts@).take(i as int));
            assert(next.last() == texts@[i as int]@);
            if i == 0 {
                assert(text@ =~= texts@[0]@);
            }
        }
        i = i + 1;
    }
    assert(views(texts@).take(i as int) =~= views(texts@));
    text
}

/// A list of numbers between brackets.
pub open spec fn list(numbers: Seq<usize>) -> Seq<char> {
    "["@ + joined(numbers.map_values(|n: usize| decimal(n as int)), ", "@) + "]"@
}

/// A list of numbers between brackets.
pub fn list_text(numbers: &Vec<usize>) -> (text: String)
    ensures
        text@ == list(numbers@),
{
    let mut texts: Vec<String> = Vec::new();
    let mut i: usize = 0;
    while i < numbers.len()
        invariant
            i <= numbers@.len(),
            texts.len() == i,
            forall|j: int| 0 <= j < i ==> (#[trigger] texts@[j])@ == decimal(numbers@[j] as int),
        decreases numbers@.len() - i,
    {
        texts.push(decimal_text(numbers[i]));
        i = i + 1;
    }
    assert(views(texts@) =~= numbers@.map_values(|n: usize| decimal(n as int)));
    let body = join(&texts, ", ");
    "[".to_owned().concat(body.as_str()).concat("]")
}

/// A text is within another where that is the text between two others.
pub proof fn a_part_has_a_front_and_a_back(needle: Seq<char>, hay: Seq<char>)
    ensures
        within(needle, hay) == exists|front: Seq<char>, back: Seq<char>|
            #[trigger] (front + needle + back) == hay,
{
    if within(needle, hay) {
        let i = choose|i: int| #[trigger] starts_at(needle, hay, i);
        let front = hay.take(i);
        let back = hay.skip(i + needle.len());
        assert(front + needle + back =~= hay);
    }
    if exists|front: Seq<char>, back: Seq<char>| #[trigger] (front + needle + back) == hay {
        let (front, back) = choose|front: Seq<char>, back: Seq<char>|
            #[trigger] (front + needle + back) == hay;
        assert(hay.subrange(front.len() as int, (front.len() + needle.len()) as int) =~= needle);
        assert(starts_at(needle, hay, front.len() as int));
    }
}

/// A number is written in decimal digits, the last one last: from a single digit, each
/// digit more is ten times the number and the digit.
pub proof fn a_number_is_written_digit_by_digit(n: int, d: int)
    requires
        0 < n,
        0 <= d < 10,
    ensures
        decimal(d).len() == 1,
        decimal(d)[0] as int == '0' as int + d,
        decimal(10 * n + d) == decimal(n) + decimal(d),
{
    reveal_strlit("0");
    reveal_strlit("1");
    reveal_strlit("2");
    reveal_strlit("3");
    reveal_strlit("4");
    reveal_strlit("5");
    reveal_strlit("6");
    reveal_strlit("7");
    reveal_strlit("8");
    reveal_strlit("9");
    assert((10 * n + d) / 10 == n && (10 * n + d) % 10 == d);
}

/// Padding adds spaces on one side, up to the width and no further. A text that is as
/// wide already stays.
pub proof fn padding_fills_up_to_the_width(text: Seq<char>, width: int, i: int)
    requires
        0 <= width,
    ensures
        text.len() >= width ==> padded_right(text, width) == text && padded_left(text, width)
            == text,
        text.len() < width ==> {
            &&& padded_right(text, width).len() == width
            &&& padded_left(text, width).len() == width
            &&& padded_right(text, width).take(text.len() as int) == text
            &&& padded_left(text, width).skip(width - text.len()) == text
            &&& text.len() <= i < width ==> padded_right(text, width)[i] == ' '
            &&& 0 <= i < width - text.len() ==> padded_left(text, width)[i] == ' '
        },
{
    let n = width - text.len();
    lemma_spaces(n, i - text.len());
    lemma_spaces(n, i);
    assert(text + Seq::<char>::empty() =~= text);
    assert(Seq::<char>::empty() + text =~= text);
    if n > 0 {
        assert(padded_right(text, width).take(text.len() as int) =~= text);
        assert(padded_left(text, width).skip(n) =~= text);
    }
}

proof fn lemma_spaces(n: int, i: int)
    ensures
        n >= 0 ==> spaces(n).len() == n,
        0 <= i < n ==> spaces(n)[i] == ' ',
    decreases n,
{
    reveal_strlit(" ");
    if n > 0 {
        lemma_spaces(n - 1, i);
    }
}

/// Joined texts follow one another, with the gap between two of them and nowhere else.
pub proof fn a_gap_stands_between_two_texts(
    texts: Seq<Seq<char>>,
    text: Seq<char>,
    gap: Seq<char>,
)
    ensures
        joined(Seq::empty(), gap).len() == 0,
        joined(seq![text], gap) == text,
        texts.len() > 0 ==> joined(texts.push(text), gap) == joined(texts, gap) + gap + text,
{
    assert(texts.push(text).drop_last() =~= texts);
}

/// A list is its numbers in brackets, with a comma and a space between two of them.
pub proof fn a_list_is_its_numbers_in_brackets(numbers: Seq<usize>, n: usize)
    ensures
        list(Seq::empty()) =~= "[]"@,
        list(seq![n]) =~= "["@ + decimal(n as int) + "]"@,
        numbers.len() > 0 ==> list(numbers.push(n)) =~= list(numbers).drop_last() + ", "@ + decimal(
            n as int,
        ) + "]"@,
{
    reveal_strlit("[");
    reveal_strlit("]");
    reveal_strlit("[]");
    let f = |n: usize| decimal(n as int);
    assert(seq![n].map_values(f) =~= seq![decimal(n as int)]);
    a_gap_stands_between_two_texts(numbers.map_values(f), decimal(n as int), ", "@);
    assert(numbers.push(n).map_values(f) =~= numbers.map_values(f).push(decimal(n as int)));
}

} // verus!
