//! The editor console: (level, message) lines, keeping the newest ones.
use vstd::prelude::*;

verus! {

/// Lines the console keeps.
pub const CONSOLE_LIMIT: usize = 500;

/// Text of a console line.
pub open spec fn line_text(l: (String, String)) -> (Seq<char>, Seq<char>) {
    (l.0@, l.1@)
}

/// The editor console.
pub struct Console {
    lines: Vec<(String, String)>,
}

impl Console {
    pub closed spec fn view_lines(&self) -> Seq<(Seq<char>, Seq<char>)> {
        self.lines@.map_values(|l: (String, String)| line_text(l))
    }

    pub fn new() -> (r: Self)
        ensures
            r.view_lines() == Seq::<(Seq<char>, Seq<char>)>::empty(),
    {
        let r = Console { lines: Vec::new() };
        proof {
            assert(r.view_lines() =~= Seq::<(Seq<char>, Seq<char>)>::empty());
        }
        r
    }

    /// Append a line; past the limit the oldest line is dropped.
    pub fn log(&mut self, level: &str, msg: &str)
        ensures
            ({
                let appended = old(self).view_lines().push((level@, msg@));
                final(self).view_lines() == if appended.len() > CONSOLE_LIMIT {
                    appended.drop_first()
                } else {
                    appended
                }
            }),
    {
        let ghost before = self.view_lines();
        self.lines.push((level.to_owned(), msg.to_owned()));
        proof {
            assert(self.view_lines() =~= before.push((level@, msg@)));
        }
        if self.lines.len() > CONSOLE_LIMIT {
            let ghost appended = self.view_lines();
            self.lines.remove(0);
            proof {
                assert(self.view_lines() =~= appended.drop_first());
            }
        }
    }

    pub fn len(&self) -> (r: usize)
        ensures
            r == self.view_lines().len(),
    {
        self.lines.len()
    }

    /// The `i`-th line (oldest first).
    pub fn line(&self, i: usize) -> (r: &(String, String))
        requires
            i < self.view_lines().len(),
        ensures
            line_text(*r) == self.view_lines()[i as int],
    {
        &self.lines[i]
    }
}

/// Law: the console never holds more than its limit of lines, and each
/// new line is the newest one kept.
pub proof fn law_console_bounded(lines: Seq<(Seq<char>, Seq<char>)>, line: (Seq<char>, Seq<char>))
    requires
        lines.len() <= CONSOLE_LIMIT,
    ensures
        ({
            let appended = lines.push(line);
            let kept = if appended.len() > CONSOLE_LIMIT {
                appended.drop_first()
            } else {
                appended
            };
            kept.len() <= CONSOLE_LIMIT && kept.last() == line
        }),
{
}

} // verus!
