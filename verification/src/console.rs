//! The countdown's view of the terminal: every update clears the screen
//! and rewrites it, either as one compact line or as rows of glyph art.
//! What has been sent to the terminal is tracked as a ghost transcript,
//! so the writing functions can say exactly what they emit.

use vstd::prelude::*;

use std::io::Stdout;
use std::io::Write;

verus! {

#[verifier::external_type_specification]
#[verifier::external_body]
pub struct ExStdout(Stdout);

/// The text a sequence of screen lines puts on the wire: each line
/// closed by a newline.
pub open spec fn joined_lines(lines: Seq<Seq<char>>) -> Seq<char>
    decreases lines.len(),
{
    if lines.len() == 0 {
        Seq::empty()
    } else {
        lines[0] + "\n"@ + joined_lines(lines.drop_first())
    }
}

/// Joining one more line appends it, newline-closed.
proof fn lemma_joined_lines_snoc(lines: Seq<Seq<char>>, line: Seq<char>)
    ensures
        joined_lines(lines.push(line)) == joined_lines(lines) + line + "\n"@,
    decreases lines.len(),
{
    if lines.len() == 0 {
        assert(lines.push(line)[0] == line);
        assert(lines.push(line).drop_first() =~= Seq::<Seq<char>>::empty());
        assert(joined_lines(Seq::<Seq<char>>::empty()) == Seq::<char>::empty());
        assert(line + "\n"@ + Seq::<char>::empty() =~= line + "\n"@);
        assert(joined_lines(lines) + line + "\n"@ =~= line + "\n"@);
    } else {
        assert(lines.push(line)[0] == lines[0]);
        assert(lines.push(line).drop_first() =~= lines.drop_first().push(line));
        lemma_joined_lines_snoc(lines.drop_first(), line);
        assert(lines[0] + "\n"@ + (joined_lines(lines.drop_first()) + line + "\n"@) =~= (lines[0]
            + "\n"@ + joined_lines(lines.drop_first())) + line + "\n"@);
    }
}

/// Writes to standard output, remembering in ghost state everything sent.
pub struct Console {
    handle: Stdout,
    transcript: Ghost<Seq<char>>,
}

impl Console {
    /// Everything this console has sent to the terminal.
    pub closed spec fn written(self) -> Seq<char> {
        self.transcript@
    }

    /// Wraps standard output; nothing sent yet.
    pub fn new(stdout: Stdout) -> (r: Self)
        ensures
            r.written() == Seq::<char>::empty(),
    {
        Console { handle: stdout, transcript: Ghost(Seq::empty()) }
    }

    /// Relies on `std::io::Stdout`'s `Write::write_fmt`, reached through
    /// the `write!` macro: the given text is sent to standard output.
    #[verifier::external_body]
    fn write_raw(&mut self, text: &str)
        ensures
            final(self).written() == old(self).written() + text@,
    {
        write!(self.handle, "{text}").expect("Message did not get through");
    }

    /// Relies on `std::io::Stdout`'s `Write::flush`: pending output is
    /// pushed out and nothing further is written.
    #[verifier::external_body]
    fn flush_now(&mut self)
        ensures
            final(self).written() == old(self).written(),
    {
        self.handle.flush().expect("Flush didn't work");
    }

    /// Clears the screen and prints one line: the compact countdown's
    /// once-a-second redraw.
    pub fn write_line(&mut self, line: String)
        ensures
            final(self).written() == old(self).written() + "\u{1b}c"@ + line@ + "\n"@,
    {
        self.write_raw("\u{1b}c");
        self.write_raw(line.as_str());
        self.write_raw("\n");
        self.flush_now();
    }

    /// Clears the screen and prints the given rows of glyph art.
    pub fn write_ascii(&mut self, ascii: Vec<String>)
        ensures
            final(self).written() == old(self).written() + "\u{1b}c"@ + joined_lines(
                ascii.deep_view(),
            ),
    {
        let ghost base = old(self).written() + "\u{1b}c"@;
        self.write_raw("\u{1b}c");
        let mut i: usize = 0;
        proof {
            assert(ascii.deep_view().take(0) =~= Seq::<Seq<char>>::empty());
            assert(base + joined_lines(Seq::<Seq<char>>::empty()) =~= base);
        }
        while i < ascii.len()
            invariant
                i <= ascii.len(),
                ascii.deep_view().len() == ascii.len(),
                self.written() == base + joined_lines(ascii.deep_view().take(i as int)),
            decreases ascii.len() - i,
        {
            let ghost seen = ascii.deep_view().take(i as int);
            self.write_raw(ascii[i].as_str());
            self.write_raw("\n");
            proof {
                lemma_joined_lines_snoc(seen, ascii.deep_view()[i as int]);
                assert(ascii.deep_view().take(i + 1) =~= seen.push(ascii.deep_view()[i as int]));
                assert(base + joined_lines(seen) + ascii@[i as int]@ + "\n"@ =~= base + (
                joined_lines(seen) + ascii.deep_view()[i as int] + "\n"@));
            }
            i += 1;
        }
        proof {
            assert(ascii.deep_view().take(ascii.len() as int) =~= ascii.deep_view());
        }
        self.flush_now();
    }
}

} // verus!
