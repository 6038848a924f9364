use vstd::prelude::*;
use vstd::utf8::{decode_utf8, valid_utf8};
use vstd::string::StrSliceExecFns;

use crate::net::{str_eq, trim, trim_str};

verus! {

/// The characters that lossy UTF-8 decoding gives for a byte sequence.
pub uninterp spec fn utf8_lossy(b: Seq<u8>) -> Seq<char>;

/// `String::from_utf8_lossy`: the bytes decoded as UTF-8, each invalid
/// sequence replaced by U+FFFD; its result is named `utf8_lossy`, and on
/// valid UTF-8 it is the plain decoding.
#[verifier::external_body]
fn from_utf8_lossy(v: &[u8]) -> (s: String)
    ensures
        s@ == utf8_lossy(v@),
        valid_utf8(v@) ==> s@ == decode_utf8(v@),
{
    String::from_utf8_lossy(v).into_owned()
}

/// The first word of a command line: the characters before its first
/// space.
pub open spec fn first_word(cs: Seq<char>) -> Seq<char>
    decreases cs.len(),
{
    if cs.len() == 0 || cs[0] == ' ' {
        Seq::empty()
    } else {
        seq![cs[0]] + first_word(cs.drop_first())
    }
}

/// A command sent to a running node over its control socket.
#[derive(Debug, Clone, Copy, PartialEq, Eq, Structural)]
pub enum ControlCommand {
    /// Stop the node.
    Stop,
    /// A command the node does not handle.
    Unsupported,
}

/// The command that bytes read from the control socket hold: the first
/// word of the trimmed text.
pub fn parse_control(buf: &[u8]) -> (c: ControlCommand)
    ensures
        (c == ControlCommand::Stop) == (first_word(trim(utf8_lossy(buf@))) == "stop"@),
{
    let text = from_utf8_lossy(buf);
    let cmd = trim_str(text.as_str());
    let keyword = first_word_of(cmd);
    if str_eq(keyword, "stop") {
        ControlCommand::Stop
    } else {
        ControlCommand::Unsupported
    }
}

proof fn lemma_first_word_prefix(cs: Seq<char>, i: int)
    requires
        0 <= i <= cs.len(),
        forall|j: int| 0 <= j < i ==> cs[j] != ' ',
        i == cs.len() || cs[i] == ' ',
    ensures
        first_word(cs) == cs.subrange(0, i),
    decreases i,
{
    if i > 0 {
        lemma_first_word_prefix(cs.drop_first(), i - 1);
        assert(seq![cs[0]] + cs.drop_first().subrange(0, i - 1) =~= cs.subrange(0, i));
    } else {
        assert(cs.subrange(0, 0) =~= Seq::<char>::empty());
    }
}

/// The characters of `s` before its first space.
pub fn first_word_of(s: &str) -> (w: &str)
    ensures
        w@ == first_word(s@),
{
    let n = s.unicode_len();
    let mut i: usize = 0;
    while i < n && s.get_char(i) != ' '
        invariant
            n == s@.len(),
            i <= n,
            forall|j: int| 0 <= j < i ==> s@[j] != ' ',
        decreases n - i,
    {
        i = i + 1;
    }
    proof {
        lemma_first_word_prefix(s@, i as int);
    }
    s.substring_char(0, i)
}

} // verus!
