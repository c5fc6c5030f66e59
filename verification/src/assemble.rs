//! What audio assembly computes around its ffmpeg run: the names of the chunk
//! files and the concat-demuxer list that names them.
use vstd::prelude::*;

use crate::error::Error;
use crate::text::{chars_of, decimal, push_decimal};
use crate::types::{format_name, Audio, AudioFormat};

verus! {

/// The message when there is nothing to assemble.
pub open spec fn no_chunks_message() -> Seq<char> {
    "no audio chunks to assemble"@
}

/// Assembly needs at least one chunk.
pub fn check_chunks(chunks: &Vec<Audio>) -> (res: Result<(), Error>)
    ensures
        chunks@.len() > 0 <==> res is Ok,
        res matches Err(e) ==> (e matches Error::Synthesis(m) && m@ == no_chunks_message()),
{
    if chunks.len() == 0 {
        let mut m = String::new();
        m.push_str("no audio chunks to assemble");
        Err(Error::Synthesis(m))
    } else {
        Ok(())
    }
}

/// The file a chunk is written to: `chunk_<i>.<extension>`.
pub fn chunk_file_name(i: usize, format: AudioFormat) -> (res: String)
    ensures
        res@ == "chunk_"@ + decimal(i as nat) + "."@ + format_name(format),
{
    let mut s = String::new();
    s.push_str("chunk_");
    push_decimal(&mut s, i as u64);
    s.push_str(".");
    s.push_str(format.extension());
    s
}

/// One path character as written in a concat list: `\` becomes `/`, and `'`
/// closes the quote, adds an escaped quote and reopens it.
pub open spec fn concat_char(c: char) -> Seq<char> {
    if c == '\\' {
        seq!['/']
    } else if c == '\'' {
        seq!['\'', '\\', '\'', '\'']
    } else {
        seq![c]
    }
}

pub open spec fn concat_escaped(p: Seq<char>) -> Seq<char>
    decreases p.len(),
{
    if p.len() == 0 {
        seq![]
    } else {
        concat_escaped(p.drop_last()) + concat_char(p.last())
    }
}

/// The concat-demuxer line naming a file.
pub fn concat_line(path: &str) -> (res: String)
    ensures
        res@ == "file '"@ + concat_escaped(path@) + "'\n"@,
{
    let v = chars_of(path);
    let mut s = String::new();
    s.push_str("file '");
    let ghost head = s@;
    let mut i: usize = 0;
    while i < v.len()
        invariant
            i <= v@.len(),
            v@ == path@,
            s@ == head + concat_escaped(v@.subrange(0, i as int)),
        decreases v@.len() - i,
    {
        let c = v[i];
        assert(v@.subrange(0, i + 1).drop_last() =~= v@.subrange(0, i as int));
        if c == '\\' {
            s.push('/');
        } else if c == '\'' {
            s.push('\'');
            s.push('\\');
            s.push('\'');
            s.push('\'');
        } else {
            s.push(c);
        }
        assert(s@ =~= head + concat_escaped(v@.subrange(0, i + 1)));
        i = i + 1;
    }
    assert(v@.subrange(0, v@.len() as int) =~= v@);
    s.push_str("'\n");
    s
}

} // verus!
