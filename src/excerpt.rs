use vstd::prelude::*;
use vstd::std_specs::iter::IteratorSpec;

verus! {

broadcast use vstd::string::axiom_spec_iter, vstd::string::next_postcondition;

/// A known line of the text, located (or not) in a candidate string.
pub struct Quote {
    pub text: String,
    pub speaker: String,
    pub act: u8,
    pub scene: u8,
    pub location: Option<usize>,
}

/// The character that a byte stands for when shown (Latin-1).
pub open spec fn byte_char(b: u8) -> char {
    b as char
}

/// The decimal digit `d` as a character.
pub open spec fn digit_char(d: u8) -> char {
    (48 + d) as u8 as char
}

/// The decimal form of `n`, without leading zeros.
pub open spec fn decimal(n: u8) -> Seq<char> {
    if n >= 100 {
        seq![digit_char(n / 100), digit_char((n / 10) % 10), digit_char(n % 10)]
    } else if n >= 10 {
        seq![digit_char(n / 10), digit_char(n % 10)]
    } else {
        seq![digit_char(n)]
    }
}

/// Green colouring on a terminal.
pub open spec fn green_on() -> Seq<char> {
    seq!['\x1B', '[', '3', '2', 'm']
}

/// Back to the terminal's default colouring.
pub open spec fn colour_off() -> Seq<char> {
    seq!['\x1B', '[', '0', 'm']
}

/// The shown form of position `i` of `candidate`: its character, in green
/// where it lies inside the quote's span and agrees with the quote's text.
pub open spec fn shown_at(text: Seq<char>, loc: int, candidate: Seq<u8>, i: int) -> Seq<char> {
    let c = byte_char(candidate[i]);
    if loc <= i < loc + text.len() && c == text[i - loc] {
        green_on() + seq![c] + colour_off()
    } else {
        seq![c]
    }
}

/// The shown form of positions `start..end` of `candidate`.
pub open spec fn shown_range(text: Seq<char>, loc: int, candidate: Seq<u8>, start: int, end: int) -> Seq<char>
    decreases end - start,
{
    if end <= start {
        Seq::empty()
    } else {
        shown_range(text, loc, candidate, start, end - 1) + shown_at(text, loc, candidate, end - 1)
    }
}

/// `speaker (Act a Scene s): `
pub open spec fn heading(speaker: Seq<char>, act: u8, scene: u8) -> Seq<char> {
    speaker + seq![' ', '(', 'A', 'c', 't', ' '] + decimal(act) + seq![' ', 'S', 'c', 'e', 'n', 'e', ' ']
        + decimal(scene) + seq![')', ':', ' ']
}

/// The first position of the window: `window` before the quote's start, at least 0.
pub open spec fn window_start(loc: int, window: int) -> int {
    if loc >= window { loc - window } else { 0 }
}

/// The end of the window: `window` after the quote's end, at most the candidate's length.
pub open spec fn window_end(loc: int, text_len: int, window: int, cand_len: int) -> int {
    if loc + text_len + window <= cand_len { loc + text_len + window } else { cand_len }
}

/// The excerpt of `candidate` that a quote shows.
pub open spec fn excerpt(q: Quote, candidate: Seq<u8>, window: int) -> Seq<char> {
    let head = heading(q.speaker@, q.act, q.scene);
    match q.location {
        None => head + seq!['[', 'N', 'o', 't', ' ', 'f', 'o', 'u', 'n', 'd', ']'],
        Some(loc) => head + shown_range(
            q.text@,
            loc as int,
            candidate,
            window_start(loc as int, window),
            window_end(loc as int, q.text@.len() as int, window, candidate.len() as int),
        ),
    }
}

/// Relies on String::push_str: appends the characters of `t`.
#[verifier::external_body]
fn append_str(s: &mut String, t: &str)
    ensures
        final(s)@ == old(s)@ + t@,
{
    s.push_str(t)
}

/// Relies on String::push: appends one character.
#[verifier::external_body]
fn append_char(s: &mut String, c: char)
    ensures
        final(s)@ == old(s)@.push(c),
{
    s.push(c)
}

fn byte_to_char(b: u8) -> (c: char)
    ensures
        c == byte_char(b),
{
    b as char
}

fn digit_to_char(d: u8) -> (c: char)
    requires
        d < 10,
    ensures
        c == digit_char(d),
{
    (48 + d) as char
}

fn append_decimal(s: &mut String, n: u8)
    ensures
        final(s)@ == old(s)@ + decimal(n),
{
    if n >= 100 {
        append_char(s, digit_to_char(n / 100));
    }
    if n >= 10 {
        append_char(s, digit_to_char((n / 10) % 10));
    }
    append_char(s, digit_to_char(n % 10));
    assert(final(s)@ =~= old(s)@ + decimal(n));
}

fn char_vec(s: &String) -> (r: Vec<char>)
    ensures
        r@ == s@,
{
    let mut r: Vec<char> = Vec::new();
    for c in it: s.as_str().chars()
        invariant
            r@ == it.seq().subrange(0, it.index() as int),
    {
        r.push(c);
        assert(r@ =~= it.seq().subrange(0, it.index() + 1));
    }
    assert(r@ =~= s@);
    r
}

impl Quote {
    /// The quote's heading, then either `[Not found]` or the candidate's
    /// characters from `window_size` before the quote's location to
    /// `window_size` after its end, where each one that agrees with the
    /// quote's text is coloured green.
    pub fn format_excerpt(&self, candidate: &[u8], window_size: usize) -> (r: String)
        ensures
            r@ == excerpt(*self, candidate@, window_size as int),
    {
        let mut result = String::new();
        append_str(&mut result, self.speaker.as_str());
        append_str(&mut result, " (Act ");
        append_decimal(&mut result, self.act);
        append_str(&mut result, " Scene ");
        append_decimal(&mut result, self.scene);
        append_str(&mut result, "): ");
        proof {
            reveal_strlit(" (Act ");
            reveal_strlit(" Scene ");
            reveal_strlit("): ");
        }
        assert(result@ =~= heading(self.speaker@, self.act, self.scene));
        match self.location {
            None => {
                append_str(&mut result, "[Not found]");
                proof {
                    reveal_strlit("[Not found]");
                }
                assert(result@ =~= excerpt(*self, candidate@, window_size as int));
                result
            },
            Some(location) => {
                let text = char_vec(&self.text);
                let text_len = text.len();
                let start = location.saturating_sub(window_size);
                let far = location.saturating_add(text_len).saturating_add(window_size);
                let end = if far <= candidate.len() { far } else { candidate.len() };
                let ghost head = result@;
                let ghost sp = window_start(location as int, window_size as int);
                let ghost ep = window_end(location as int, text_len as int, window_size as int, candidate@.len() as int);
                assert(start == sp);
                assert(end == ep);
                let mut i: usize = start;
                while i < end
                    invariant
                        start <= i,
                        i <= end || i == start,
                        end <= candidate@.len(),
                        text@ == self.text@,
                        text_len == text@.len(),
                        result@ == head + shown_range(text@, location as int, candidate@, start as int, i as int),
                    decreases end - i,
                {
                    let c = byte_to_char(candidate[i]);
                    if i >= location && i - location < text_len && c == text[i - location] {
                        append_str(&mut result, "\x1B[32m");
                        append_char(&mut result, c);
                        append_str(&mut result, "\x1B[0m");
                        proof {
                            reveal_strlit("\x1B[32m");
                            reveal_strlit("\x1B[0m");
                        }
                    } else {
                        append_char(&mut result, c);
                    }
                    assert(shown_range(text@, location as int, candidate@, start as int, i + 1)
                        == shown_range(text@, location as int, candidate@, start as int, i as int)
                        + shown_at(text@, location as int, candidate@, i as int));
                    assert(result@ =~= head + shown_range(text@, location as int, candidate@, start as int, i + 1));
                    i += 1;
                }
                assert(shown_range(text@, location as int, candidate@, start as int, start as int) =~= Seq::<char>::empty());
                if end < start {
                    assert(shown_range(text@, location as int, candidate@, start as int, end as int) =~= Seq::<char>::empty());
                }
                assert(result@ =~= excerpt(*self, candidate@, window_size as int));
                result
            },
        }
    }
}

} // verus!
