//! The agent's bounded in-memory log: it keeps the newest lines up to a
//! fixed capacity, dropping the oldest first, and renders them as one
//! text block.  The hook that repaints the UI on every append lives
//! outside the verified core.

use vstd::prelude::*;

use crate::strutil::push_char;
use crate::strutil::views_of;
use vstd::string::StringExecFns;

verus! {

/// The given character sequences joined by a separator character.
pub open spec fn spec_joined(sep: char, lines: Seq<Seq<char>>) -> Seq<char>
    decreases lines.len(),
{
    if lines.len() == 0 {
        Seq::empty()
    } else if lines.len() == 1 {
        lines[0]
    } else {
        spec_joined(sep, lines.drop_last()).push(sep) + lines.last()
    }
}

/// Joining distributes over appending one more line.
pub proof fn lemma_joined_push(sep: char, lines: Seq<Seq<char>>, x: Seq<char>)
    ensures
        spec_joined(sep, lines.push(x)) == if lines.len() == 0 {
            x
        } else {
            spec_joined(sep, lines).push(sep) + x
        },
{
    assert(lines.push(x).drop_last() =~= lines);
    assert(lines.push(x).last() == x);
    if lines.len() == 0 {
        assert(lines.push(x)[0] == x);
    }
}

/// A bounded log of text lines, oldest first.
pub struct LogBuffer {
    pub lines: Vec<String>,
    pub capacity: usize,
}

impl LogBuffer {
    /// The buffer never holds more lines than its capacity.
    pub open spec fn wf(&self) -> bool {
        self.lines@.len() <= self.capacity
    }

    /// An empty buffer that will keep at most `capacity` lines.
    pub fn new(capacity: usize) -> (r: LogBuffer)
        ensures
            r.wf(),
            r.capacity == capacity,
            r.lines@.len() == 0,
    {
        LogBuffer { lines: Vec::new(), capacity }
    }

    /// Appends a line; when the buffer is full, the oldest line leaves to
    /// make room.
    pub fn push(&mut self, line: String)
        requires
            old(self).wf(),
            old(self).capacity >= 1,
        ensures
            final(self).wf(),
            final(self).capacity == old(self).capacity,
            old(self).lines@.len() < old(self).capacity ==> final(self).lines@ == old(
                self,
            ).lines@.push(line),
            old(self).lines@.len() == old(self).capacity ==> final(self).lines@ == old(
                self,
            ).lines@.drop_first().push(line),
    {
        if self.lines.len() >= self.capacity {
            self.lines.remove(0);
            proof {
                assert(self.lines@ =~= old(self).lines@.drop_first());
            }
        }
        self.lines.push(line);
    }

    /// The buffered lines as one block, joined by line breaks.
    pub fn snapshot(&self) -> (r: String)
        ensures
            r@ == spec_joined('\n', views_of(self.lines@)),
    {
        join_lines('\n', &self.lines)
    }

    /// Empties the buffer.
    pub fn clear(&mut self)
        ensures
            final(self).wf(),
            final(self).capacity == old(self).capacity,
            final(self).lines@.len() == 0,
    {
        self.lines.clear();
    }
}

/// Joins the given lines with a separator character.
pub fn join_lines(sep: char, lines: &Vec<String>) -> (r: String)
    ensures
        r@ == spec_joined(sep, views_of(lines@)),
{
    let mut out = String::new();
    let n = lines.len();
    let mut i: usize = 0;
    while i < n
        invariant
            n == lines@.len(),
            i <= n,
            out@ == spec_joined(sep, views_of(lines@).take(i as int)),
        decreases n - i,
    {
        if i > 0 {
            push_char(&mut out, sep);
        }
        out.append(lines[i].as_str());
        proof {
            let lv = views_of(lines@);
            lemma_joined_push(sep, lv.take(i as int), lv[i as int]);
            assert(lv.take(i + 1) =~= lv.take(i as int).push(lv[i as int]));
            assert(out@ =~= spec_joined(sep, lv.take(i + 1)));
        }
        i = i + 1;
    }
    proof {
        assert(views_of(lines@).take(n as int) =~= views_of(lines@));
    }
    out
}

/// One rendered log line, as the agent's log window shows it: a bracketed
/// header of time, level and target, the message, and any further fields
/// joined by spaces.
pub open spec fn spec_log_line(
    now_hms: Seq<char>,
    level: Seq<char>,
    target: Seq<char>,
    message: Seq<char>,
    fields: Seq<Seq<char>>,
) -> Seq<char> {
    let head = "["@ + now_hms + " "@ + level + " "@ + target + "] "@ + message;
    if fields.len() == 0 {
        head
    } else {
        head + " "@ + spec_joined(' ', fields)
    }
}

/// Renders one log line.
pub fn format_log_line(
    now_hms: &str,
    level: &str,
    target: &str,
    message: &str,
    fields: &Vec<String>,
) -> (r: String)
    ensures
        r@ == spec_log_line(now_hms@, level@, target@, message@, views_of(fields@)),
{
    let mut out = String::from_str("[");
    out.append(now_hms);
    out.append(" ");
    out.append(level);
    out.append(" ");
    out.append(target);
    out.append("] ");
    out.append(message);
    if fields.len() > 0 {
        out.append(" ");
        let joined = join_lines(' ', fields);
        out.append(joined.as_str());
        proof {
            assert(out@ =~= spec_log_line(now_hms@, level@, target@, message@, views_of(fields@)));
        }
    } else {
        proof {
            assert(out@ =~= spec_log_line(now_hms@, level@, target@, message@, views_of(fields@)));
        }
    }
    out
}

} // verus!
