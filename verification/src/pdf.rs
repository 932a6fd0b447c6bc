use vstd::prelude::*;

verus! {

/// `String::push_str` of the standard library: the buffer afterwards holds
/// what it held before, followed by the characters of `text`.
pub assume_specification[ String::push_str ](buffer: &mut String, text: &str)
    ensures
        final(buffer)@ == old(buffer)@ + text@,
;

/// Appends `line` to `buffer` and ends it as a PDF file ends its lines: with
/// a carriage return and a line feed.
pub fn append_line(buffer: &mut String, line: &str)
    ensures
        final(buffer)@ == old(buffer)@ + line@ + "\r\n"@,
{
    buffer.push_str(line);
    buffer.push_str("\r\n");
}

} // verus!
