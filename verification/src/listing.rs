//! The listing: the text that is handed to the editor and read back from it.
//!
//! A listing holds one path on each line. Empty lines and lines that begin
//! with two slashes are not entries.

use vstd::prelude::*;
use vstd::std_specs::iter::IteratorSpec;
use vstd::string::StringExecFns;

use crate::collector::PathList;
use crate::text::texts;

verus! {

/// The end of a line.
pub open spec fn newline() -> Seq<char> {
    seq!['\n']
}

/// The first line of every listing.
pub open spec fn notice_ignored() -> Seq<char> {
    "// empty lines and coments are ignored"@
}

/// The second line of every listing.
pub open spec fn notice_order() -> Seq<char> {
    "// do not remove or reorder any lines"@
}

/// The third line of every listing.
pub open spec fn notice_stems() -> Seq<char> {
    "// do not edit anything other than file stems"@
}

/// What a listing begins with: three lines of advice and an empty line.
pub open spec fn header() -> Seq<char> {
    notice_ignored() + newline() + notice_order() + newline() + notice_stems() + newline()
        + newline()
}

/// The lines of `paths`, each path on a line of its own.
pub open spec fn body(paths: Seq<Seq<char>>) -> Seq<char>
    decreases paths.len(),
{
    if paths.len() == 0 {
        Seq::empty()
    } else {
        paths[0] + newline() + body(paths.drop_first())
    }
}

/// The listing of `paths`.
pub open spec fn listing(paths: Seq<Seq<char>>) -> Seq<char> {
    header() + body(paths)
}

/// The length of the first line of `text`: the position of its first line
/// end, or the length of `text` where it holds none.
pub open spec fn line_end(text: Seq<char>) -> int
    decreases text.len(),
{
    if text.len() == 0 || text[0] == '\n' {
        0
    } else {
        1 + line_end(text.drop_first())
    }
}

/// `line` without the carriage return at its end, if it has one.
pub open spec fn without_return(line: Seq<char>) -> Seq<char> {
    if line.len() > 0 && line.last() == '\r' {
        line.drop_last()
    } else {
        line
    }
}

/// `line` begins with two slashes.
pub open spec fn is_comment(line: Seq<char>) -> bool {
    line.len() >= 2 && line[0] == '/' && line[1] == '/'
}

/// `line` names a path: it is neither empty nor a comment.
pub open spec fn is_entry(line: Seq<char>) -> bool {
    line.len() > 0 && !is_comment(line)
}

/// `line` where it is an entry, nothing where it is not.
pub open spec fn kept(line: Seq<char>) -> Seq<Seq<char>> {
    if is_entry(line) {
        seq![line]
    } else {
        Seq::empty()
    }
}

/// The entries of a listing, in the order of its lines.
///
/// A line ends at a line feed; a carriage return just before the line feed
/// belongs to the line end. What follows the last line feed is a line too.
/// An entry is a line as it stands, with nothing trimmed.
pub open spec fn entries(text: Seq<char>) -> Seq<Seq<char>>
    decreases text.len(),
{
    let k = line_end(text);
    if text.len() == 0 {
        Seq::empty()
    } else if 0 <= k < text.len() {
        kept(without_return(text.take(k))) + entries(text.skip(k + 1))
    } else {
        kept(text)
    }
}

/// `line` holds no line feed.
pub open spec fn single_line(line: Seq<char>) -> bool {
    forall|j: int| 0 <= j < line.len() ==> line[j] != '\n'
}

/// The first line of `line` followed by `rest` is `line`, where `line` holds no
/// line feed and `rest` is empty or begins with one.
pub proof fn lemma_line_end(line: Seq<char>, rest: Seq<char>)
    requires
        single_line(line),
        rest.len() == 0 || rest[0] == '\n',
    ensures
        line_end(line + rest) == line.len(),
    decreases line.len(),
{
    if line.len() > 0 {
        assert((line + rest).drop_first() =~= line.drop_first() + rest);
        assert forall|j: int| 0 <= j < line.drop_first().len() implies line.drop_first()[j]
            != '\n' by {
            assert(line.drop_first()[j] == line[j + 1]);
        }
        assert((line + rest)[0] == line[0]);
        lemma_line_end(line.drop_first(), rest);
    } else {
        assert(line + rest =~= rest);
    }
}

/// The entries of a text that begins with a whole line: that line, if it is an
/// entry, and the entries of the rest.
pub proof fn lemma_entries_line(line: Seq<char>, rest: Seq<char>)
    requires
        single_line(line),
    ensures
        entries(line + newline() + rest) == kept(without_return(line)) + entries(rest),
{
    let text = line + newline() + rest;
    assert(text =~= line + (newline() + rest));
    lemma_line_end(line, newline() + rest);
    assert(text.take(line.len() as int) =~= line);
    assert(text.skip(line.len() as int + 1) =~= rest);
}

/// The entries of a text that is one unfinished line.
pub proof fn lemma_entries_last(line: Seq<char>)
    requires
        single_line(line),
    ensures
        entries(line) == kept(line),
{
    lemma_line_end(line, Seq::empty());
    assert(line + Seq::<char>::empty() =~= line);
    if line.len() == 0 {
        assert(kept(line) =~= Seq::<Seq<char>>::empty());
    }
}

/// The lines of a list with one more path at its end.
pub proof fn lemma_body_push(paths: Seq<Seq<char>>, last: Seq<char>)
    ensures
        body(paths.push(last)) == body(paths) + last + newline(),
    decreases paths.len(),
{
    let more = paths.push(last);
    assert(body(more) == more[0] + newline() + body(more.drop_first()));
    if paths.len() == 0 {
        assert(more.drop_first() =~= Seq::<Seq<char>>::empty());
        assert(body(more.drop_first()) =~= Seq::<char>::empty());
        assert(body(more) =~= body(paths) + last + newline());
    } else {
        assert(more.drop_first() =~= paths.drop_first().push(last));
        lemma_body_push(paths.drop_first(), last);
        assert(body(more) =~= body(paths) + last + newline());
    }
}

/// What is left to read: the line read so far, a carriage return that was
/// seen last and is not yet counted to the line, and the text that follows.
pub open spec fn unread(line: Seq<char>, held: bool, rest: Seq<char>) -> Seq<char> {
    line + (if held {
        seq!['\r']
    } else {
        Seq::empty()
    }) + rest
}

/// The line read so far once the held carriage return is counted to it.
pub open spec fn settled(line: Seq<char>, held: bool) -> Seq<char> {
    if held {
        line.push('\r')
    } else {
        line
    }
}

/// A line feed ends the line; a carriage return held back goes with it.
proof fn lemma_read_feed(line: Seq<char>, held: bool, rest: Seq<char>)
    requires
        single_line(line),
        !held && line.len() > 0 ==> line.last() != '\r',
    ensures
        entries(unread(line, held, newline() + rest)) == kept(line) + entries(
            unread(Seq::empty(), false, rest),
        ),
{
    let whole = settled(line, held);
    assert(unread(line, held, newline() + rest) =~= whole + newline() + rest);
    assert(unread(Seq::empty(), false, rest) =~= rest);
    lemma_entries_line(whole, rest);
    assert(without_return(whole) =~= line);
}

/// Any other character is counted to the line, after the carriage return
/// held back; a carriage return is held back in its turn.
proof fn lemma_read_char(line: Seq<char>, held: bool, c: char, rest: Seq<char>)
    requires
        c != '\n',
    ensures
        c == '\r' ==> unread(line, held, seq![c] + rest) == unread(settled(line, held), true, rest),
        c != '\r' ==> unread(line, held, seq![c] + rest) == unread(
            settled(line, held).push(c),
            false,
            rest,
        ),
{
    if c == '\r' {
        assert(unread(line, held, seq![c] + rest) =~= unread(settled(line, held), true, rest));
    } else {
        assert(unread(line, held, seq![c] + rest) =~= unread(
            settled(line, held).push(c),
            false,
            rest,
        ));
    }
}

/// At the end of the text the line read so far is the last line.
proof fn lemma_read_end(line: Seq<char>, held: bool)
    requires
        single_line(line),
    ensures
        entries(unread(line, held, Seq::empty())) == kept(settled(line, held)),
{
    assert(unread(line, held, Seq::empty()) =~= settled(line, held));
    lemma_entries_last(settled(line, held));
}

/// Whether `line` names a path.
pub fn names_path(line: &str) -> (r: bool)
    ensures
        r == is_entry(line@),
{
    let mut it = line.chars();
    let first = it.next();
    let second = it.next();
    proof {
        if line@.len() > 1 {
            assert(line@.drop_first()[0] == line@[1]);
        }
    }
    match (first, second) {
        (None, _) => false,
        (Some(a), Some(b)) => !(a == '/' && b == '/'),
        (Some(_), None) => true,
    }
}

/// The text of the listing of `list`: the header, then the paths in
/// ascending order, one on each line.
pub fn render_listing(list: &PathList) -> (text: String)
    ensures
        text@ == listing(list@),
{
    let paths = list.paths();
    let ghost s = texts(paths@);
    let mut text = String::new();
    text.append("// empty lines and coments are ignored");
    text.push('\n');
    text.append("// do not remove or reorder any lines");
    text.push('\n');
    text.append("// do not edit anything other than file stems");
    text.push('\n');
    text.push('\n');
    proof {
        assert(text@ =~= header());
        assert(text@ =~= header() + body(s.take(0)));
    }
    for i in 0..paths.len()
        invariant
            s == texts(paths@),
            text@ == header() + body(s.take(i as int)),
    {
        text.append(paths[i].as_str());
        text.push('\n');
        proof {
            assert(s.take(i + 1) =~= s.take(i as int).push(s[i as int]));
            lemma_body_push(s.take(i as int), s[i as int]);
            assert(text@ =~= header() + body(s.take(i + 1)));
        }
    }
    proof {
        assert(s.take(paths.len() as int) =~= s);
    }
    text
}

/// The entries of an edited listing, in the order of its lines.
pub fn parse_listing(text: &str) -> (out: Vec<String>)
    ensures
        texts(out@) == entries(text@),
{
    let mut out: Vec<String> = Vec::new();
    // the line that is being read, but for a carriage return seen last
    let mut line = String::new();
    let mut held: bool = false;
    proof {
        assert(unread(line@, held, text@.skip(0)) =~= text@);
        assert(texts(out@) + entries(text@) =~= entries(text@));
    }
    for c in it: text.chars()
        invariant
            it.seq() == text@,
            single_line(line@),
            !held && line@.len() > 0 ==> line@.last() != '\r',
            entries(text@) == texts(out@) + entries(unread(line@, held, text@.skip(it.index()))),
    {
        let ghost rest = text@.skip(it.index() + 1);
        let ghost before = texts(out@);
        proof {
            assert(text@.skip(it.index()) =~= seq![c] + rest);
        }
        if c == '\n' {
            proof {
                assert(seq![c] + rest =~= newline() + rest);
                lemma_read_feed(line@, held, rest);
            }
            if names_path(line.as_str()) {
                out.push(line);
                proof {
                    assert(texts(out@) =~= before + kept(out[out.len() - 1]@));
                }
            } else {
                proof {
                    assert(before + kept(line@) =~= before);
                }
            }
            line = String::new();
            held = false;
        } else {
            proof {
                lemma_read_char(line@, held, c, rest);
            }
            if held {
                line.push('\r');
            }
            if c == '\r' {
                held = true;
            } else {
                line.push(c);
                held = false;
            }
        }
    }
    proof {
        assert(text@.skip(text@.len() as int) =~= Seq::<char>::empty());
        lemma_read_end(line@, held);
    }
    if held {
        line.push('\r');
    }
    let ghost before = texts(out@);
    if names_path(line.as_str()) {
        out.push(line);
        proof {
            assert(texts(out@) =~= before + kept(out[out.len() - 1]@));
        }
    } else {
        proof {
            assert(before + kept(line@) =~= before);
        }
    }
    out
}

} // verus!
