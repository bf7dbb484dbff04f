//! Keys, from the bytes that a terminal sends.

use vstd::prelude::*;

verus! {

/// What a key asks for.
#[derive(Clone, Copy, Debug, PartialEq, Eq, Structural)]
pub enum Key {
    Up,
    Down,
    Home,
    End,
    Stop,
    Refresh,
    Yes,
    Quit,
    Escape,
    Other,
}

/// The end of an unrecognized control sequence: behind its first final byte from
/// `i` on, or the end of the bytes.
pub open spec fn sequence_end(s: Seq<u8>, i: int) -> int
    decreases s.len() - i,
{
    if i < 0 || i >= s.len() {
        s.len() as int
    } else if 0x40 <= s[i] <= 0x7e {
        i + 1
    } else {
        sequence_end(s, i + 1)
    }
}

/// The key that the bytes from `i` on start with, and where it ends. An escape
/// byte with `[` or `O` starts an arrow or a control sequence.
pub open spec fn key_at(s: Seq<u8>, i: int) -> (Key, int) {
    let rest = s.len() - i;
    let b = s[i];
    if b == 0x1b {
        let arrow = rest >= 3 && (s[i + 1] == 0x5b || s[i + 1] == 0x4f);
        if arrow && s[i + 2] == 0x41 {
            (Key::Up, i + 3)
        } else if arrow && s[i + 2] == 0x42 {
            (Key::Down, i + 3)
        } else if arrow && s[i + 2] == 0x48 {
            (Key::Home, i + 3)
        } else if arrow && s[i + 2] == 0x46 {
            (Key::End, i + 3)
        } else if rest >= 4 && s[i + 1] == 0x5b && s[i + 2] == 0x33 && s[i + 3] == 0x7e {
            (Key::Stop, i + 4)
        } else if rest >= 2 && s[i + 1] == 0x5b {
            (Key::Other, sequence_end(s, i + 2))
        } else {
            (Key::Escape, i + 1)
        }
    } else if b == 0x6b {
        (Key::Up, i + 1)
    } else if b == 0x6a {
        (Key::Down, i + 1)
    } else if b == 0x67 {
        (Key::Home, i + 1)
    } else if b == 0x47 {
        (Key::End, i + 1)
    } else if b == 0x78 || b == 0x64 {
        (Key::Stop, i + 1)
    } else if b == 0x72 {
        (Key::Refresh, i + 1)
    } else if b == 0x79 || b == 0x59 {
        (Key::Yes, i + 1)
    } else if b == 0x71 || b == 0x03 || b == 0x04 {
        (Key::Quit, i + 1)
    } else {
        (Key::Other, i + 1)
    }
}

/// A control sequence ends behind its start, within the bytes.
pub proof fn lemma_sequence_end(s: Seq<u8>, i: int)
    requires
        0 <= i <= s.len(),
    ensures
        i <= sequence_end(s, i) <= s.len(),
    decreases s.len() - i,
{
    if i < s.len() && !(0x40 <= s[i] <= 0x7e) {
        lemma_sequence_end(s, i + 1);
    }
}

/// The keys that the bytes from `i` on stand for.
pub open spec fn keys_from(s: Seq<u8>, i: int) -> Seq<Key>
    decreases s.len() - i,
{
    if i < 0 || i >= s.len() {
        Seq::empty()
    } else {
        proof {
            if i + 2 <= s.len() {
                lemma_sequence_end(s, i + 2);
            }
        }
        seq![key_at(s, i).0] + keys_from(s, key_at(s, i).1)
    }
}

fn csi_end(s: &[u8], start: usize) -> (r: usize)
    requires
        start <= s@.len(),
    ensures
        r == sequence_end(s@, start as int),
        start <= r <= s@.len(),
{
    let n: usize = s.len();
    let mut i: usize = start;
    while i < n
        invariant
            start <= i <= n,
            n == s@.len(),
            sequence_end(s@, start as int) == sequence_end(s@, i as int),
        decreases n - i,
    {
        if 0x40 <= s[i] && s[i] <= 0x7e {
            return i + 1;
        }
        i = i + 1;
    }
    n
}

fn read_key(s: &[u8], i: usize) -> (r: (Key, usize))
    requires
        i < s@.len(),
    ensures
        (r.0, r.1 as int) == key_at(s@, i as int),
        i < r.1 <= s@.len(),
{
    let n: usize = s.len();
    let rest: usize = n - i;
    let b: u8 = s[i];
    if b == 0x1b {
        let arrow: bool = rest >= 3 && (s[i + 1] == 0x5b || s[i + 1] == 0x4f);
        if arrow && s[i + 2] == 0x41 {
            (Key::Up, i + 3)
        } else if arrow && s[i + 2] == 0x42 {
            (Key::Down, i + 3)
        } else if arrow && s[i + 2] == 0x48 {
            (Key::Home, i + 3)
        } else if arrow && s[i + 2] == 0x46 {
            (Key::End, i + 3)
        } else if rest >= 4 && s[i + 1] == 0x5b && s[i + 2] == 0x33 && s[i + 3] == 0x7e {
            (Key::Stop, i + 4)
        } else if rest >= 2 && s[i + 1] == 0x5b {
            (Key::Other, csi_end(s, i + 2))
        } else {
            (Key::Escape, i + 1)
        }
    } else if b == 0x6b {
        (Key::Up, i + 1)
    } else if b == 0x6a {
        (Key::Down, i + 1)
    } else if b == 0x67 {
        (Key::Home, i + 1)
    } else if b == 0x47 {
        (Key::End, i + 1)
    } else if b == 0x78 || b == 0x64 {
        (Key::Stop, i + 1)
    } else if b == 0x72 {
        (Key::Refresh, i + 1)
    } else if b == 0x79 || b == 0x59 {
        (Key::Yes, i + 1)
    } else if b == 0x71 || b == 0x03 || b == 0x04 {
        (Key::Quit, i + 1)
    } else {
        (Key::Other, i + 1)
    }
}

/// The keys that bytes from the terminal stand for.
pub fn keys(bytes: &[u8]) -> (r: Vec<Key>)
    ensures
        r@ == keys_from(bytes@, 0),
{
    let mut out: Vec<Key> = Vec::new();
    let mut i: usize = 0;
    assert(out@ + keys_from(bytes@, 0) =~= keys_from(bytes@, 0));
    while i < bytes.len()
        invariant
            i <= bytes@.len(),
            out@ + keys_from(bytes@, i as int) == keys_from(bytes@, 0),
        decreases bytes@.len() - i,
    {
        let ghost before = out@;
        let (key, after): (Key, usize) = read_key(bytes, i);
        out.push(key);
        i = after;
        assert(before + (seq![key] + keys_from(bytes@, i as int)) =~= out@ + keys_from(
            bytes@,
            i as int,
        ));
    }
    assert(out@ + keys_from(bytes@, i as int) =~= out@);
    out
}

} // verus!
