use vstd::prelude::*;

verus! {

/// The newline byte.
pub const NEWLINE: u8 = 10;

/// The bytes after the last newline.
pub open spec fn tail(s: Seq<u8>) -> Seq<u8>
    decreases s.len(),
{
    if s.len() == 0 {
        Seq::empty()
    } else if s.last() == NEWLINE {
        Seq::empty()
    } else {
        tail(s.drop_last()).push(s.last())
    }
}

/// The non-empty lines that a newline has ended.
pub open spec fn done(s: Seq<u8>) -> Seq<Seq<u8>>
    decreases s.len(),
{
    if s.len() == 0 {
        Seq::empty()
    } else if s.last() == NEWLINE && tail(s.drop_last()).len() > 0 {
        done(s.drop_last()).push(tail(s.drop_last()))
    } else {
        done(s.drop_last())
    }
}

/// The non-empty lines of a text, a final line without newline included.
pub open spec fn lines(s: Seq<u8>) -> Seq<Seq<u8>> {
    if tail(s).len() > 0 {
        done(s).push(tail(s))
    } else {
        done(s)
    }
}

pub open spec fn no_newline(s: Seq<u8>) -> bool {
    forall|i: int| 0 <= i < s.len() ==> s[i] != NEWLINE
}

/// Text after a line break, of no newline, makes an unfinished line.
pub proof fn lemma_append_segment(p: Seq<u8>, seg: Seq<u8>)
    requires
        tail(p).len() == 0,
        no_newline(seg),
    ensures
        tail(p + seg) == seg,
        done(p + seg) == done(p),
    decreases seg.len(),
{
    if seg.len() > 0 {
        let init = seg.drop_last();
        lemma_append_segment(p, init);
        assert((p + seg).drop_last() == p + init);
        assert(init.push(seg.last()) == seg);
    } else {
        assert(p + seg == p);
    }
}

/// The lines after one more segment, ended by a newline or not.
pub proof fn lemma_lines_segment(p: Seq<u8>, seg: Seq<u8>)
    requires
        tail(p).len() == 0,
        no_newline(seg),
    ensures
        lines(p + seg) == if seg.len() > 0 { lines(p).push(seg) } else { lines(p) },
        lines((p + seg).push(NEWLINE)) == lines(p + seg),
        tail((p + seg).push(NEWLINE)).len() == 0,
{
    lemma_append_segment(p, seg);
    assert((p + seg).push(NEWLINE).drop_last() == p + seg);
}

/// Text that ends a line splits into its lines and those of what follows.
pub proof fn lemma_lines_concat(a: Seq<u8>, b: Seq<u8>)
    requires
        tail(a).len() == 0,
    ensures
        tail(a + b) == tail(b),
        done(a + b) == done(a) + done(b),
        lines(a + b) == lines(a) + lines(b),
    decreases b.len(),
{
    if b.len() == 0 {
        assert(a + b == a);
        assert(done(a) + done(b) == done(a));
    } else {
        let init = b.drop_last();
        lemma_lines_concat(a, init);
        assert((a + b).drop_last() == a + init);
        if b.last() == NEWLINE && tail(init).len() > 0 {
            assert(done(a) + done(init).push(tail(init)) == (done(a) + done(init)).push(tail(init)));
        }
    }
    assert(lines(a) == done(a));
    if tail(b).len() > 0 {
        assert(done(a) + done(b).push(tail(b)) == (done(a) + done(b)).push(tail(b)));
    }
}

/// A final newline adds no line.
pub proof fn lemma_lines_final_newline(s: Seq<u8>)
    ensures
        lines(s.push(NEWLINE)) == lines(s),
{
    assert(s.push(NEWLINE).drop_last() == s);
}

/// Position of the first zero byte of a block, or its length: the bytes
/// before it are its content.
pub open spec fn content_len(b: Seq<u8>) -> nat
    decreases b.len(),
{
    if b.len() == 0 {
        0
    } else if b[0] == 0 {
        0
    } else {
        1 + content_len(b.drop_first())
    }
}

/// The bytes of a block before its first zero byte.
pub open spec fn content(b: Seq<u8>) -> Seq<u8> {
    b.subrange(0, content_len(b) as int)
}

pub proof fn lemma_content_len(b: Seq<u8>)
    ensures
        content_len(b) <= b.len(),
        forall|j: int| 0 <= j < content_len(b) ==> b[j] != 0,
        content_len(b) < b.len() ==> b[content_len(b) as int] == 0,
    decreases b.len(),
{
    if b.len() > 0 && b[0] != 0 {
        lemma_content_len(b.drop_first());
        assert forall|j: int| 0 <= j < content_len(b) implies b[j] != 0 by {
            if j > 0 {
                assert(b[j] == b.drop_first()[j - 1]);
            }
        }
    }
}

/// The content ends at the first zero byte, or at the end.
pub proof fn lemma_content_len_is(b: Seq<u8>, i: int)
    requires
        0 <= i <= b.len(),
        forall|j: int| 0 <= j < i ==> b[j] != 0,
        i < b.len() ==> b[i] == 0,
    ensures
        content_len(b) == i,
    decreases i,
{
    if i > 0 {
        lemma_content_len_is(b.drop_first(), i - 1);
    }
}

} // verus!
