//! Tags: `(namespace, descriptor)` pairs with a textual form
//! `namespace:descriptor`; a bare descriptor falls into the `general`
//! namespace.

use vstd::prelude::*;

verus! {

/// A normalized vocabulary entry, before it is assigned an id.
#[derive(Debug)]
pub struct Tag {
    pub namespace: String,
    pub descriptor: String,
}

/// The mathematical value of a tag.
pub ghost struct TagV {
    pub namespace: Seq<char>,
    pub descriptor: Seq<char>,
}

impl View for Tag {
    type V = TagV;

    open spec fn view(&self) -> TagV {
        TagV { namespace: self.namespace@, descriptor: self.descriptor@ }
    }
}

/// Index of the first colon in `s`, if any.
pub open spec fn first_colon(s: Seq<char>) -> Option<int>
    decreases s.len(),
{
    if s.len() == 0 {
        None
    } else if s[0] == ':' {
        Some(0)
    } else {
        match first_colon(s.skip(1)) {
            Some(i) => Some(i + 1),
            None => None,
        }
    }
}

/// `first_colon` of a suffix, shifted back to whole-string indexes.
pub open spec fn first_colon_from(s: Seq<char>, i: int) -> Option<int> {
    match first_colon(s.skip(i)) {
        Some(j) => Some(i + j),
        None => None,
    }
}

/// The namespace a tag string names: what stands before the first colon,
/// or `general` when there is none.
pub open spec fn spec_tag_namespace(s: Seq<char>) -> Seq<char> {
    match first_colon(s) {
        Some(i) => s.take(i),
        None => "general"@,
    }
}

/// The descriptor a tag string names: what stands after the first colon,
/// or the whole string when there is none.
pub open spec fn spec_tag_descriptor(s: Seq<char>) -> Seq<char> {
    match first_colon(s) {
        Some(i) => s.skip(i + 1),
        None => s,
    }
}

impl Tag {
    /// Split a `namespace:descriptor` string at its first colon; with no
    /// colon the namespace defaults to `general`.
    pub fn from(tag_str: &str) -> (r: Tag)
        ensures
            r@.namespace == spec_tag_namespace(tag_str@),
            r@.descriptor == spec_tag_descriptor(tag_str@),
    {
        let n = tag_str.unicode_len();
        let mut i: usize = 0;
        proof {
            assert(tag_str@.skip(0) =~= tag_str@);
        }
        while i < n
            invariant
                i <= n,
                n == tag_str@.len(),
                first_colon(tag_str@) == first_colon_from(tag_str@, i as int),
            decreases n - i,
        {
            if tag_str.get_char(i) == ':' {
                proof {
                    let s = tag_str@;
                    assert(s.skip(i as int)[0] == s[i as int]);
                    assert(first_colon(s.skip(i as int)) == Some(0int));
                    assert(first_colon(s) == Some(i as int));
                }
                let namespace = tag_str.substring_char(0, i).to_owned();
                let descriptor = tag_str.substring_char(i + 1, n).to_owned();
                proof {
                    assert(namespace@ =~= tag_str@.take(i as int));
                    assert(descriptor@ =~= tag_str@.skip(i as int + 1));
                }
                return Tag { namespace, descriptor };
            }
            i = i + 1;
            proof {
                let s = tag_str@;
                assert(s.skip(i - 1)[0] == s[i - 1]);
                assert(s.skip(i - 1).skip(1) =~= s.skip(i as int));
            }
        }
        proof {
            assert(tag_str@.skip(n as int).len() == 0);
            assert(first_colon(tag_str@) is None);
        }
        Tag { namespace: String::from_str("general"), descriptor: tag_str.to_owned() }
    }

    /// The textual form `namespace:descriptor`.
    pub fn to_string(&self) -> (r: String)
        ensures
            r@ == self@.namespace + seq![':'] + self@.descriptor,
    {
        let mut out = String::new();
        out.append(self.namespace.as_str());
        out.append(":");
        out.append(self.descriptor.as_str());
        proof {
            reveal_strlit(":");
            assert(":"@ =~= seq![':']);
        }
        out
    }

    /// A copy of this tag, by value.
    pub fn clone_tag(&self) -> (r: Tag)
        ensures
            r@ == self@,
    {
        Tag {
            namespace: crate::text::clone_string(&self.namespace),
            descriptor: crate::text::clone_string(&self.descriptor),
        }
    }
}

} // verus!
