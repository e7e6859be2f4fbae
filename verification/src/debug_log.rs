//! Text of debug log lines: a call `Class::fn(arg, ...)` and its arguments,
//! quoted and clipped.
use vstd::prelude::*;
use vstd::utf8::{encode_utf8, decode_utf8, valid_utf8, is_char_boundary};
use crate::provided::{Tree, TreeView};
use crate::text::{decimal, decimal_text};

verus! {

broadcast use vstd::utf8::group_utf8_lib;

/// What `String::from_utf8_lossy` makes of bytes: their text, with each
/// invalid sequence replaced by U+FFFD.
pub uninterp spec fn lossy_text(b: Seq<u8>) -> Seq<char>;

/// `String::from_utf8_lossy`: the text of the bytes. Claimed: it is
/// [`lossy_text`] of them, and for valid UTF-8 their decoding (as its
/// documentation states). How invalid sequences are replaced is left to the name.
#[verifier::external_body]
fn utf8_lossy(b: &[u8]) -> (r: String)
    ensures
        r@ == lossy_text(b@),
        valid_utf8(b@) ==> r@ == decode_utf8(b@),
{
    String::from_utf8_lossy(b).into_owned()
}

/// `args`, each after the first preceded by `, `.
pub open spec fn joined(args: Seq<Seq<char>>) -> Seq<char>
    decreases args.len(),
{
    if args.len() == 0 {
        Seq::empty()
    } else if args.len() == 1 {
        args[0]
    } else {
        joined(args.drop_last()) + ", "@ + args.last()
    }
}

/// `class::fn_name(args)`.
pub open spec fn call_text(class: Seq<char>, fn_name: Seq<char>, args: Seq<Seq<char>>) -> Seq<char> {
    class + "::"@ + fn_name + "("@ + joined(args) + ")"@
}

/// A quoted argument: `'text'`, or, past 50 bytes, its first 47 bytes quoted and `...`.
pub open spec fn quoted(t: Seq<char>) -> Seq<char> {
    let b = encode_utf8(t);
    if b.len() > 50 {
        "'"@ + decode_utf8(b.take(47)) + "'..."@
    } else {
        "'"@ + t + "'"@
    }
}

/// The text can be clipped: a text past 50 bytes has a character boundary at byte 47.
pub open spec fn clippable(t: Seq<char>) -> bool {
    encode_utf8(t).len() > 50 ==> is_char_boundary(encode_utf8(t), 47)
}

/// How a tree shows in a log line.
pub open spec fn tree_text(v: TreeView) -> Seq<char> {
    match v {
        TreeView::Scalar(b) => quoted(lossy_text(b)),
        TreeView::Sequence(items) => if items.len() == 0 {
            "[]"@
        } else {
            "["@ + decimal_text(items.len()) + " items]"@
        },
        TreeView::Mapping(pairs) => if pairs.len() == 0 {
            "{}"@
        } else {
            "{"@ + decimal_text(pairs.len()) + " fields}"@
        },
        TreeView::Null => "null"@,
    }
}

/// `Class::fn(arg, ...)`.
pub fn message(class: &str, fn_name: &str, args: &[&str]) -> (r: String)
    ensures
        r@ == call_text(class@, fn_name@, Seq::new(args@.len(), |i: int| args@[i]@)),
{
    let ghost parts = Seq::new(args@.len(), |i: int| args@[i]@);
    let mut s = String::from_str(class);
    s.append("::");
    s.append(fn_name);
    s.append("(");
    let ghost head = s@;
    let mut i: usize = 0;
    assert(parts.take(0) =~= Seq::<Seq<char>>::empty());
    assert(s@ =~= head + joined(parts.take(0)));
    while i < args.len()
        invariant
            parts == Seq::new(args@.len(), |i: int| args@[i]@),
            i <= args@.len(),
            s@ == head + joined(parts.take(i as int)),
        decreases args@.len() - i,
    {
        if i > 0 {
            s.append(", ");
        }
        s.append(args[i]);
        proof {
            assert(parts.take(i + 1).drop_last() =~= parts.take(i as int));
            assert(parts.take(i + 1).last() == args@[i as int]@);
            if i == 0 {
                assert(parts.take(1) =~= seq![args@[0]@]);
            }
        }
        assert(s@ =~= head + joined(parts.take(i + 1)));
        i = i + 1;
    }
    s.append(")");
    assert(parts.take(i as int) =~= parts);
    assert(s@ =~= call_text(class@, fn_name@, parts));
    s
}

/// A text quoted for a log line (see [`quoted`]).
pub fn format_str_arg(s: &str) -> (r: String)
    requires
        clippable(s@),
    ensures
        r@ == quoted(s@),
{
    let mut out = String::from_str("'");
    let n = s.as_bytes().len();
    assert(n == encode_utf8(s@).len());
    if n > 50 {
        let (head, _) = s.split_at(47);
        proof {
            assert(encode_utf8(head@) =~= encode_utf8(s@).take(47));
            vstd::utf8::encode_utf8_decode_utf8(head@);
            assert(head@ == decode_utf8(encode_utf8(s@).take(47)));
        }
        out.append(head);
        out.append("'...");
        assert(out@ =~= quoted(s@));
    } else {
        out.append(s);
        out.append("'");
        assert(out@ =~= quoted(s@));
    }
    out
}

/// How a tree shows in a log line (see [`tree_text`]).
pub fn format_arg(value: &Tree) -> (r: String)
    requires
        value@ matches TreeView::Scalar(b) ==> clippable(lossy_text(b)),
    ensures
        r@ == tree_text(value@),
{
    match value {
        Tree::Scalar(b) => {
            let s = utf8_lossy(b.as_slice());
            format_str_arg(s.as_str())
        },
        Tree::Sequence(items) => {
            if items.len() == 0 {
                String::from_str("[]")
            } else {
                let mut s = String::from_str("[");
                let n = decimal(items.len() as u64);
                s.append(n.as_str());
                s.append(" items]");
                s
            }
        },
        Tree::Mapping(pairs) => {
            if pairs.len() == 0 {
                String::from_str("{}")
            } else {
                let mut s = String::from_str("{");
                let n = decimal(pairs.len() as u64);
                s.append(n.as_str());
                s.append(" fields}");
                s
            }
        },
        Tree::Null => String::from_str("null"),
    }
}

/// [`format_arg`] where its text can be clipped; `None` for a scalar whose text
/// is past 50 bytes without a character boundary at byte 47.
pub fn try_format_arg(value: &Tree) -> (r: Option<String>)
    ensures
        match value@ {
            TreeView::Scalar(b) => if clippable(lossy_text(b)) {
                r matches Some(s) && s@ == tree_text(value@)
            } else {
                r is None
            },
            _ => r matches Some(s) && s@ == tree_text(value@),
        },
{
    match value {
        Tree::Scalar(b) => {
            let s = utf8_lossy(b.as_slice());
            let text = s.as_str();
            assert(text@ == lossy_text(b@));
            let n = text.as_bytes().len();
            if n > 50 && !text.is_char_boundary(47) {
                return None;
            }
            assert(clippable(lossy_text(b@)));
            Some(format_arg(value))
        },
        _ => Some(format_arg(value)),
    }
}

} // verus!
