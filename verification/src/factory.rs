//! Every sound the instrument itself ships with, read from a sound list.
//!
//! These live in ROM, not in any file: a scene can only ever point at them, which is why a library
//! built from files alone shows a bank it can never list. A sound list is the missing half: one
//! line per sound, `msb`, `lsb`, `pc`, `number`, `name`, `category`, tab separated, under one
//! header line. An expansion's sounds reach a library the same way, as a list read from a file.
//!
//! Engine and bank are not stored: [`ToneRef`] derives both from the address, so one taxonomy
//! serves a zone's reference and a catalogue entry alike.

use vstd::prelude::*;

use crate::model::{bank_label, engine_of, ToneAddress, ToneRef, ToneType};
use crate::text::{str_trim, trim};

verus! {

/// One built-in sound, at the address a zone would select it by, borrowed from the list it was
/// read from.
#[derive(Debug, Clone, Copy, PartialEq, Eq)]
pub struct FactorySound<'a> {
    pub address: ToneAddress,
    /// Number within its bank, as the panel shows it.
    pub number: u16,
    pub name: &'a str,
    /// Roland's category, e.g. `35:Synth Brass`. Empty where the list gives none.
    pub category: &'a str,
}

impl<'a> FactorySound<'a> {
    /// The engine that plays it.
    pub fn engine(&self) -> (t: ToneType)
        ensures
            t == engine_of(self.address.msb, self.address.lsb),
    {
        self.tone_ref().tone_type()
    }

    /// The bank it sits in — `PR-A`, `CMN`, `PRST`, `JP8` — when its mapping is confirmed.
    pub fn bank(&self) -> (b: Option<&'static str>)
        ensures
            b == bank_label(engine_of(self.address.msb, self.address.lsb), self.address.msb, self.address.lsb),
    {
        self.tone_ref().bank()
    }

    fn tone_ref(&self) -> (r: ToneRef)
        ensures
            r.address == self.address,
            r.name is None,
    {
        ToneRef::new(self.address.msb, self.address.lsb, self.address.pc, None)
    }
}

/// Where the first `c` of `s` is, if it is there.
pub open spec fn first_of(s: Seq<char>, c: char) -> Option<int>
    decreases s.len(),
{
    if s.len() == 0 {
        None
    } else {
        match first_of(s.drop_last(), c) {
            Some(i) => Some(i),
            None => if s.last() == c {
                Some(s.len() - 1)
            } else {
                None
            },
        }
    }
}

/// `first_of` finds the first `c`, or says there is none.
pub proof fn lemma_first_of(s: Seq<char>, c: char)
    ensures
        first_of(s, c) matches Some(i) ==> 0 <= i < s.len() && s[i] == c && forall|j: int| 0 <= j < i ==> s[j] != c,
        first_of(s, c) is None ==> forall|j: int| 0 <= j < s.len() ==> s[j] != c,
    decreases s.len(),
{
    if s.len() > 0 {
        lemma_first_of(s.drop_last(), c);
        assert forall|j: int| 0 <= j < s.len() - 1 implies s[j] == s.drop_last()[j] by {}
    }
}

/// A line's text without its ending: a carriage return before the newline goes with it.
pub open spec fn line_body(l: Seq<char>) -> Seq<char> {
    if l.len() > 0 && l.last() == '\r' {
        l.drop_last()
    } else {
        l
    }
}

/// The lines of `s` (`str::lines`): split after every newline, each without its `\n` or `\r\n`;
/// a last line without a newline is kept as it is, and nothing follows a final newline.
pub open spec fn lines(s: Seq<char>) -> Seq<Seq<char>>
    decreases s.len(),
{
    if s.len() == 0 {
        Seq::empty()
    } else {
        match first_of(s, '\n') {
            None => seq![s],
            Some(i) => {
                proof {
                    lemma_first_of(s, '\n');
                }
                seq![line_body(s.subrange(0, i))] + lines(s.subrange(i + 1, s.len() as int))
            },
        }
    }
}

/// The fields of a line, split at every tab (`str::split('\t')`).
pub open spec fn fields(s: Seq<char>) -> Seq<Seq<char>>
    decreases s.len(),
{
    match first_of(s, '\t') {
        None => seq![s],
        Some(i) => {
            proof {
                lemma_first_of(s, '\t');
            }
            seq![s.subrange(0, i)] + fields(s.subrange(i + 1, s.len() as int))
        },
    }
}

/// Whether every character of `s` is an ASCII digit.
pub open spec fn all_digits(s: Seq<char>) -> bool {
    forall|i: int| 0 <= i < s.len() ==> '0' <= #[trigger] s[i] <= '9'
}

/// The number the digits of `s` spell.
pub open spec fn digits_value(s: Seq<char>) -> nat
    decreases s.len(),
{
    if s.len() == 0 {
        0
    } else {
        digits_value(s.drop_last()) * 10 + ((s.last() as u32 - '0' as u32) as nat)
    }
}

/// An unsigned number as `str::parse` reads one of at most `max`: an optional `+`, then one
/// or more ASCII digits, whose value fits.
pub open spec fn parse_unsigned(s: Seq<char>, max: nat) -> Option<nat> {
    let d = if s.len() > 0 && s[0] == '+' {
        s.subrange(1, s.len() as int)
    } else {
        s
    };
    if d.len() > 0 && all_digits(d) && digits_value(d) <= max {
        Some(digits_value(d))
    } else {
        None
    }
}

/// What one line of a sound list holds, if it is a sound: address (with the program number,
/// printed from 1, stored from 0), number (0 when unreadable), name and category, both trimmed.
/// A line short of a name, with an unreadable address, or with a blank name is none.
pub open spec fn sound_of(line: Seq<char>) -> Option<(ToneAddress, u16, Seq<char>, Seq<char>)> {
    let f = fields(line);
    if f.len() < 5 {
        None
    } else {
        match (parse_unsigned(f[0], 255), parse_unsigned(f[1], 255), parse_unsigned(f[2], 255)) {
            (Some(msb), Some(lsb), Some(pc)) => if pc == 0 || trim(f[4]).len() == 0 {
                None
            } else {
                let number = match parse_unsigned(f[3], 65535) {
                    Some(n) => n as u16,
                    None => 0u16,
                };
                let category = if f.len() > 5 {
                    trim(f[5])
                } else {
                    Seq::empty()
                };
                Some((ToneAddress { msb: msb as u8, lsb: lsb as u8, pc: (pc - 1) as u8 }, number, trim(f[4]), category))
            },
            _ => None,
        }
    }
}

/// The sounds among the first `n` of `ls`, in order.
pub open spec fn sounds_of(ls: Seq<Seq<char>>, n: int) -> Seq<(ToneAddress, u16, Seq<char>, Seq<char>)>
    decreases n,
{
    if n <= 0 {
        Seq::empty()
    } else {
        match sound_of(ls[n - 1]) {
            Some(x) => sounds_of(ls, n - 1).push(x),
            None => sounds_of(ls, n - 1),
        }
    }
}

/// The sounds a list holds: every line after the header that is one.
pub open spec fn sound_list(text: Seq<char>) -> Seq<(ToneAddress, u16, Seq<char>, Seq<char>)> {
    let ls = lines(text);
    if ls.len() == 0 {
        Seq::empty()
    } else {
        let body = ls.subrange(1, ls.len() as int);
        sounds_of(body, body.len() as int)
    }
}

/// A sound by its fields.
pub open spec fn sound_view(s: FactorySound) -> (ToneAddress, u16, Seq<char>, Seq<char>) {
    (s.address, s.number, s.name@, s.category@)
}


/// Where the first `c` at or after `from` is.
fn find_char(s: &str, from: usize, c: char) -> (r: Option<usize>)
    requires
        from <= s@.len(),
    ensures
        match first_of(s@.subrange(from as int, s@.len() as int), c) {
            Some(i) => r == Some((from + i) as usize),
            None => r is None,
        },
{
    let ghost t = s@.subrange(from as int, s@.len() as int);
    proof {
        lemma_first_of(t, c);
    }
    let n = s.unicode_len();
    let mut j = from;
    while j < n
        invariant
            from <= j <= n == s@.len(),
            t == s@.subrange(from as int, s@.len() as int),
            forall|k: int| from <= k < j ==> s@[k] != c,
        decreases n - j,
    {
        if s.get_char(j) == c {
            proof {
                lemma_first_of(t, c);
                assert(t[j - from] == c);
                match first_of(t, c) {
                    Some(i) => {
                        if i < j - from {
                            assert(t[i] == s@[from + i]);
                        }
                        if i > j - from {
                            assert(t[j - from] != c);
                        }
                    },
                    None => {
                        assert(t[j - from] != c);
                    },
                }
            }
            return Some(j);
        }
        j = j + 1;
    }
    proof {
        lemma_first_of(t, c);
        if let Some(i) = first_of(t, c) {
            assert(t[i] == s@[from + i]);
        }
    }
    None
}

proof fn lemma_digits_prefix(d: Seq<char>, k: int)
    requires
        all_digits(d),
        0 <= k <= d.len(),
    ensures
        digits_value(d.subrange(0, k)) <= digits_value(d),
    decreases d.len(),
{
    if k < d.len() {
        assert(d.drop_last().subrange(0, k) =~= d.subrange(0, k));
        assert forall|i: int| 0 <= i < d.drop_last().len() implies '0' <= #[trigger] d.drop_last()[i] <= '9' by {
            assert(d.drop_last()[i] == d[i]);
        }
        lemma_digits_prefix(d.drop_last(), k);
    } else {
        assert(d.subrange(0, k) =~= d);
    }
}

/// An unsigned number of at most `max`, read as `str::parse` reads one.
fn parse_number(s: &str, max: u32) -> (r: Option<u32>)
    requires
        max <= 65535,
    ensures
        match parse_unsigned(s@, max as nat) {
            Some(v) => r == Some(v as u32),
            None => r is None,
        },
{
    let n = s.unicode_len();
    let mut i: usize = 0;
    if n > 0 && s.get_char(0) == '+' {
        i = 1;
    }
    let ghost d = s@.subrange(i as int, n as int);
    assert(d == (if s@.len() > 0 && s@[0] == '+' { s@.subrange(1, s@.len() as int) } else { s@ }));
    if i == n {
        return None;
    }
    let mut acc: u32 = 0;
    let mut j = i;
    while j < n
        invariant
            i <= j <= n == s@.len(),
            d == s@.subrange(i as int, n as int),
            d == (if s@.len() > 0 && s@[0] == '+' { s@.subrange(1, s@.len() as int) } else { s@ }),
            d.len() > 0,
            max <= 65535,
            all_digits(d.subrange(0, j - i)),
            acc == digits_value(d.subrange(0, j - i)),
            acc <= max,
        decreases n - j,
    {
        let c = s.get_char(j);
        assert(c == d[j - i]);
        if c < '0' || c > '9' {
            assert(!all_digits(d));
            return None;
        }
        assert(d.subrange(0, j + 1 - i).drop_last() =~= d.subrange(0, j - i));
        acc = acc * 10 + (c as u32 - '0' as u32);
        j = j + 1;
        if acc > max {
            proof {
                if all_digits(d) {
                    lemma_digits_prefix(d, j - i);
                }
            }
            return None;
        }
    }
    assert(d.subrange(0, j - i) =~= d);
    Some(acc)
}

/// The fields of a line, split at every tab.
fn fields_of<'a>(line: &'a str) -> (r: Vec<&'a str>)
    ensures
        r@.map_values(|f: &str| f@) == fields(line@),
{
    let ghost fs = fields(line@);
    let n = line.unicode_len();
    let mut out: Vec<&'a str> = Vec::new();
    let mut start: usize = 0;
    assert(line@.subrange(0, n as int) =~= line@);
    loop
        invariant_except_break
            start <= n == line@.len(),
            fs == fields(line@),
            out@.map_values(|f: &str| f@) + fields(line@.subrange(start as int, n as int)) == fs,
        ensures
            out@.map_values(|f: &str| f@) == fs,
        decreases n - start,
    {
        let ghost t = line@.subrange(start as int, n as int);
        let ghost before = out@.map_values(|f: &str| f@);
        proof {
            lemma_first_of(t, '\t');
        }
        match find_char(line, start, '\t') {
            None => {
                out.push(line.substring_char(start, n));
                assert(out@.map_values(|f: &str| f@) =~= before.push(t));
                assert(fields(t) == seq![t]);
                assert(before + seq![t] =~= before.push(t));
                break;
            },
            Some(i) => {
                out.push(line.substring_char(start, i));
                assert(t.subrange(0, i - start) =~= line@.subrange(start as int, i as int));
                assert(t.subrange(i - start + 1, t.len() as int) =~= line@.subrange(i + 1, n as int));
                assert(fields(t) == seq![line@.subrange(start as int, i as int)] + fields(line@.subrange(i + 1, n as int)));
                assert(out@.map_values(|f: &str| f@) =~= before.push(line@.subrange(start as int, i as int)));
                assert(before + fields(t) =~= out@.map_values(|f: &str| f@) + fields(line@.subrange(i + 1, n as int)));
                start = i + 1;
            },
        }
    }
    out
}


/// The sound one line of a list describes, if it is one.
fn sound_from<'a>(line: &'a str) -> (r: Option<FactorySound<'a>>)
    ensures
        match sound_of(line@) {
            Some(x) => r matches Some(sd) && sound_view(sd) == x,
            None => r is None,
        },
{
    let f = fields_of(line);
    let ghost fs = fields(line@);
    assert(f@.len() == fs.len());
    if f.len() < 5 {
        return None;
    }
    assert(f@[0]@ == fs[0] && f@[1]@ == fs[1] && f@[2]@ == fs[2] && f@[3]@ == fs[3] && f@[4]@ == fs[4]);
    let msb = match parse_number(f[0], 255) {
        Some(v) => v,
        None => {
            return None;
        },
    };
    let lsb = match parse_number(f[1], 255) {
        Some(v) => v,
        None => {
            return None;
        },
    };
    let pc = match parse_number(f[2], 255) {
        Some(v) => v,
        None => {
            return None;
        },
    };
    if pc == 0 {
        return None;
    }
    let name = str_trim(f[4]);
    if name.unicode_len() == 0 {
        return None;
    }
    let number: u16 = match parse_number(f[3], 65535) {
        Some(v) => v as u16,
        None => 0,
    };
    let category = if f.len() > 5 {
        assert(f@[5]@ == fs[5]);
        str_trim(f[5])
    } else {
        proof {
            reveal_strlit("");
        }
        ""
    };
    assert(category@ =~= (if fs.len() > 5 { trim(fs[5]) } else { Seq::<char>::empty() }));
    Some(FactorySound { address: ToneAddress { msb: msb as u8, lsb: lsb as u8, pc: (pc - 1) as u8 }, number, name, category })
}

/// The line of `text` that starts at `start` and ends before `end` (a newline, or the end of
/// the text), without a carriage return before a newline.
fn line_at<'a>(text: &'a str, start: usize, end: usize, newline: bool) -> (r: &'a str)
    requires
        start <= end <= text@.len(),
    ensures
        r@ == (if newline { line_body(text@.subrange(start as int, end as int)) } else { text@.subrange(start as int, end as int) }),
{
    if newline && end > start && text.get_char(end - 1) == '\r' {
        let r = text.substring_char(start, end - 1);
        assert(r@ =~= text@.subrange(start as int, end as int).drop_last());
        r
    } else {
        text.substring_char(start, end)
    }
}

/// Read a sound list: `msb`, `lsb`, `pc`, `number`, `name`, `category`, tab separated, one sound
/// per line under one header line. A line that is not a sound (short of a name, an address that
/// does not read, a blank name) is passed over.
pub fn parse<'a>(text: &'a str) -> (r: Vec<FactorySound<'a>>)
    ensures
        r@.map_values(|sd: FactorySound<'a>| sound_view(sd)) == sound_list(text@),
{
    let ghost ls = lines(text@);
    let n = text.unicode_len();
    let mut out: Vec<FactorySound<'a>> = Vec::new();
    let mut start: usize = 0;
    let mut k: usize = 0;
    assert(text@.subrange(0, n as int) =~= text@);
    assert(ls.subrange(0, ls.len() as int) =~= ls);
    while start < n
        invariant
            start <= n == text@.len(),
            ls == lines(text@),
            k <= ls.len(),
            k <= start,
            lines(text@.subrange(start as int, n as int)) == ls.subrange(k as int, ls.len() as int),
            k >= 1 ==> out@.map_values(|sd: FactorySound<'a>| sound_view(sd)) == sounds_of(
                ls.subrange(1, ls.len() as int),
                k - 1,
            ),
            k == 0 ==> out@.len() == 0,
        decreases n - start,
    {
        let ghost t = text@.subrange(start as int, n as int);
        proof {
            lemma_first_of(t, '\n');
        }
        let (line, next) = match find_char(text, start, '\n') {
            None => {
                let l = line_at(text, start, n, false);
                (l, n)
            },
            Some(i) => {
                let l = line_at(text, start, i, true);
                assert(t.subrange(0, i - start) =~= text@.subrange(start as int, i as int));
                assert(t.subrange(i - start + 1, t.len() as int) =~= text@.subrange(i + 1, n as int));
                (l, i + 1)
            },
        };
        assert(lines(t) == seq![line@] + lines(text@.subrange(next as int, n as int)));
        assert(ls.subrange(k as int, ls.len() as int)[0] == ls[k as int]);
        assert(ls[k as int] == line@);
        assert(ls.subrange(k + 1, ls.len() as int) =~= ls.subrange(k as int, ls.len() as int).subrange(1, ls.len() - k));
        assert(lines(text@.subrange(next as int, n as int)) =~= (seq![line@] + lines(text@.subrange(next as int, n as int))).subrange(1, ls.len() - k));
        let ghost before = out@.map_values(|sd: FactorySound<'a>| sound_view(sd));
        if k >= 1 {
            let ghost body = ls.subrange(1, ls.len() as int);
            assert(body[k - 1] == ls[k as int]);
            match sound_from(line) {
                Some(sd) => {
                    out.push(sd);
                    assert(out@.map_values(|x: FactorySound<'a>| sound_view(x)) =~= before.push(sound_view(sd)));
                },
                None => {},
            }
        } else {
            assert(out@.map_values(|x: FactorySound<'a>| sound_view(x)) =~= Seq::<(ToneAddress, u16, Seq<char>, Seq<char>)>::empty());
        }
        k = k + 1;
        start = next;
    }
    assert(text@.subrange(start as int, n as int) =~= Seq::<char>::empty());
    if k == 0 {
        assert(out@.map_values(|x: FactorySound<'a>| sound_view(x)) =~= Seq::<(ToneAddress, u16, Seq<char>, Seq<char>)>::empty());
    }
    out
}

} // verus!
