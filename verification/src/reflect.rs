//! Parser for reflection property paths.
//!
//! A property path such as `bar.stuff` or `collection[0].payload` is a
//! sequence of components: named field accesses separated by dots, and
//! bracketed index accesses. [`path_to_components`] splits the UTF-8 bytes
//! of a path into those components; splitting happens only at ASCII
//! delimiters, so multi-byte characters pass through untouched.

use vstd::prelude::*;

verus! {

/// One component of a property path.
#[derive(Clone, PartialEq, Eq, Debug)]
pub enum Component {
    /// A named field access, holding the field name's bytes.
    Field(Vec<u8>),
    /// A bracketed index access, holding the bytes between the brackets.
    Index(Vec<u8>),
}

/// An error from a failed path query.
#[derive(Clone, PartialEq, Eq, Debug)]
pub enum ReflectPathError {
    /// An index access was opened but never closed.
    UnclosedBrackets {
        /// The remaining path from the opening bracket on.
        s: Vec<u8>,
    },
    /// The text between brackets is not an index.
    InvalidIndexSyntax {
        /// The offending text.
        s: Vec<u8>,
    },
    /// The named field does not exist.
    UnknownField {
        /// The requested name.
        s: Vec<u8>,
    },
    /// The indexed item does not exist.
    NoItemForIndex {
        /// The requested index text.
        s: Vec<u8>,
    },
    /// The resolved value had an unexpected type.
    InvalidDowncast,
    /// An index access was attempted on a value that is not a collection.
    NotAnArray,
}

/// An error that can occur when casting a reflected field.
#[derive(Clone, PartialEq, Eq, Debug)]
pub enum CastError {
    /// The field exists but has another type.
    TypeMismatch {
        /// The name of the field.
        property_name: Vec<u8>,
    },
}

/// `path` with one leading dot discarded.
pub open spec fn drop_lead_dot(p: Seq<u8>) -> Seq<u8> {
    if p.len() > 0 && p[0] == 46u8 {
        p.drop_first()
    } else {
        p
    }
}

/// The first position at or after `i` holding a dot or an opening bracket,
/// or the length of `q` if there is none.
pub open spec fn scan_delim(q: Seq<u8>, i: int) -> int
    decreases q.len() - i,
{
    if !(0 <= i < q.len()) {
        q.len() as int
    } else if q[i] == 46u8 || q[i] == 91u8 {
        i
    } else {
        scan_delim(q, i + 1)
    }
}

/// The first position at or after `i` holding a closing bracket, or the
/// length of `q` if there is none.
pub open spec fn scan_close(q: Seq<u8>, i: int) -> int
    decreases q.len() - i,
{
    if !(0 <= i < q.len()) {
        q.len() as int
    } else if q[i] == 93u8 {
        i
    } else {
        scan_close(q, i + 1)
    }
}

proof fn lemma_scan_delim_props(q: Seq<u8>, i: int)
    requires
        0 <= i <= q.len(),
    ensures
        i <= scan_delim(q, i) <= q.len(),
        forall|m: int| i <= m < scan_delim(q, i) ==> q[m] != 46u8 && q[m] != 91u8,
        scan_delim(q, i) < q.len() ==> q[scan_delim(q, i)] == 46u8 || q[scan_delim(q, i)] == 91u8,
    decreases q.len() - i,
{
    if i < q.len() && !(q[i] == 46u8 || q[i] == 91u8) {
        lemma_scan_delim_props(q, i + 1);
    }
}

proof fn lemma_scan_close_props(q: Seq<u8>, i: int)
    requires
        0 <= i <= q.len(),
    ensures
        i <= scan_close(q, i) <= q.len(),
        forall|m: int| i <= m < scan_close(q, i) ==> q[m] != 93u8,
        scan_close(q, i) < q.len() ==> q[scan_close(q, i)] == 93u8,
    decreases q.len() - i,
{
    if i < q.len() && q[i] != 93u8 {
        lemma_scan_close_props(q, i + 1);
    }
}

/// What splitting one component off a path yields: a component given as
/// (is-index, content) together with the remaining path, or the unclosed
/// remainder as an error.
pub open spec fn next_spec(path: Seq<u8>) -> Result<(bool, Seq<u8>, Seq<u8>), Seq<u8>> {
    let q = drop_lead_dot(path);
    let i = scan_delim(q, 0);
    if !(0 <= i < q.len()) {
        Ok((false, q, Seq::empty()))
    } else if q[i] == 46u8 {
        Ok((false, q.subrange(0, i), q.subrange(i + 1, q.len() as int)))
    } else if i != 0 {
        Ok((false, q.subrange(0, i), q.subrange(i, q.len() as int)))
    } else {
        let j = scan_close(q, 1);
        if !(1 <= j < q.len()) {
            Err(q)
        } else {
            Ok((true, q.subrange(1, j), q.subrange(j + 1, q.len() as int)))
        }
    }
}

/// The components of a path, each as (is-index, content): components are
/// split off one by one until the path is exhausted, an empty field name
/// stops the split, and an unclosed bracket discards the rest.
pub open spec fn components_of(p: Seq<u8>) -> Seq<(bool, Seq<u8>)>
    decreases p.len(),
{
    match next_spec(p) {
        Ok(t) => if !t.0 && t.1.len() == 0 {
            Seq::empty()
        } else {
            seq![(t.0, t.1)] + components_of(t.2)
        },
        Err(_) => Seq::empty(),
    }
}

/// The bytes of `s` from `from` (inclusive) to `to` (exclusive), copied out.
fn bytes_range(s: &[u8], from: usize, to: usize) -> (r: Vec<u8>)
    requires
        from <= to <= s@.len(),
    ensures
        r@ == s@.subrange(from as int, to as int),
{
    let mut r: Vec<u8> = Vec::new();
    let mut i = from;
    while i < to
        invariant
            from <= i <= to <= s@.len(),
            r@ == s@.subrange(from as int, i as int),
        decreases to - i,
    {
        r.push(s[i]);
        proof {
            assert(r@ =~= s@.subrange(from as int, i + 1));
        }
        i += 1;
    }
    r
}

/// Whether a path ends in an index access.
pub fn is_path_to_array_element(path: &[u8]) -> (r: bool)
    ensures
        r == (path@.len() > 0 && path@.last() == 93u8),
{
    path.len() > 0 && path[path.len() - 1] == 93
}

impl Component {
    /// Splits the first component off `path` and returns it with the
    /// remaining path, exactly as [`next_spec`] describes. A path without a
    /// delimiter is one single field; an opening bracket with no closing
    /// one is reported as an error.
    pub fn next(path: &[u8]) -> (r: Result<(Component, Vec<u8>), ReflectPathError>)
        ensures
            match r {
                Ok(cr) => next_spec(path@) is Ok && {
                    let t = next_spec(path@)->Ok_0;
                    &&& match cr.0 {
                        Component::Field(b) => !t.0 && b@ == t.1,
                        Component::Index(b) => t.0 && b@ == t.1,
                    }
                    &&& cr.1@ == t.2
                },
                Err(e) => next_spec(path@) is Err && (e matches ReflectPathError::UnclosedBrackets {
                    s,
                } && s@ == next_spec(path@)->Err_0),
            },
    {
        let start: usize = if path.len() > 0 && path[0] == 46 {
            1
        } else {
            0
        };
        let ghost q = drop_lead_dot(path@);
        proof {
            assert(q =~= path@.subrange(start as int, path@.len() as int));
            lemma_scan_delim_props(q, 0);
        }
        let mut i = start;
        while i < path.len() && path[i] != 46 && path[i] != 91
            invariant
                start <= i <= path@.len(),
                q =~= path@.subrange(start as int, path@.len() as int),
                forall|m: int| 0 <= m < i - start ==> q[m] != 46u8 && q[m] != 91u8,
            decreases path@.len() - i,
        {
            proof {
                assert(q[(i - start) as int] == path@[i as int]);
            }
            i += 1;
        }
        proof {
            if i < path@.len() {
                assert(q[(i - start) as int] == path@[i as int]);
            }
            assert(scan_delim(q, 0) == (i - start) as int) by {
                let sd = scan_delim(q, 0);
                if sd < (i - start) as int {
                    assert(q[sd] == 46u8 || q[sd] == 91u8);
                } else if sd > (i - start) as int {
                    assert(((i - start) as int) < q.len());
                    assert(q[(i - start) as int] != 46u8 && q[(i - start) as int] != 91u8);
                }
            }
        }
        if i == path.len() {
            let content = bytes_range(path, start, path.len());
            proof {
                assert(content@ =~= q);
            }
            return Ok((Component::Field(content), Vec::new()));
        }
        if path[i] == 46 {
            let content = bytes_range(path, start, i);
            let rest = bytes_range(path, i + 1, path.len());
            proof {
                assert(content@ =~= q.subrange(0, (i - start) as int));
                assert(rest@ =~= q.subrange((i - start) as int + 1, q.len() as int));
            }
            return Ok((Component::Field(content), rest));
        }
        if i != start {
            let content = bytes_range(path, start, i);
            let rest = bytes_range(path, i, path.len());
            proof {
                assert(content@ =~= q.subrange(0, (i - start) as int));
                assert(rest@ =~= q.subrange((i - start) as int, q.len() as int));
            }
            return Ok((Component::Field(content), rest));
        }
        // An index access: find the closing bracket.
        proof {
            lemma_scan_close_props(q, 1);
        }
        let mut j = start + 1;
        while j < path.len() && path[j] != 93
            invariant
                start + 1 <= j <= path@.len(),
                start < path@.len(),
                q =~= path@.subrange(start as int, path@.len() as int),
                forall|m: int| 1 <= m < j - start ==> q[m] != 93u8,
            decreases path@.len() - j,
        {
            proof {
                assert(q[(j - start) as int] == path@[j as int]);
            }
            j += 1;
        }
        proof {
            if j < path@.len() {
                assert(q[(j - start) as int] == path@[j as int]);
            }
            assert(scan_close(q, 1) == (j - start) as int) by {
                let sc = scan_close(q, 1);
                if sc < (j - start) as int {
                    assert(q[sc] == 93u8);
                } else if sc > (j - start) as int {
                    assert(((j - start) as int) < q.len());
                    assert(q[(j - start) as int] != 93u8);
                }
            }
        }
        if j == path.len() {
            let rest = bytes_range(path, start, path.len());
            proof {
                assert(rest@ =~= q);
            }
            return Err(ReflectPathError::UnclosedBrackets { s: rest });
        }
        let content = bytes_range(path, start + 1, j);
        let rest = bytes_range(path, j + 1, path.len());
        proof {
            assert(content@ =~= q.subrange(1, (j - start) as int));
            assert(rest@ =~= q.subrange((j - start) as int + 1, q.len() as int));
        }
        Ok((Component::Index(content), rest))
    }
}

/// Splits a property path into its components, exactly as
/// [`components_of`] describes.
pub fn path_to_components(path: &[u8]) -> (r: Vec<Component>)
    ensures
        r@.len() == components_of(path@).len(),
        forall|m: int|
            0 <= m < r@.len() ==> match #[trigger] r@[m] {
                Component::Field(b) => !components_of(path@)[m].0 && b@ == components_of(
                    path@,
                )[m].1,
                Component::Index(b) => components_of(path@)[m].0 && b@ == components_of(
                    path@,
                )[m].1,
            },
{
    let mut components: Vec<Component> = Vec::new();
    let mut current: Vec<u8> = bytes_range(path, 0, path.len());
    let ghost full = components_of(path@);
    let ghost done: Seq<(bool, Seq<u8>)> = Seq::empty();
    proof {
        assert(current@ =~= path@);
    }
    loop
        invariant_except_break
            full == components_of(path@),
            full =~= done + components_of(current@),
            components@.len() == done.len(),
            forall|m: int|
                0 <= m < done.len() ==> match #[trigger] components@[m] {
                    Component::Field(b) => !done[m].0 && b@ == done[m].1,
                    Component::Index(b) => done[m].0 && b@ == done[m].1,
                },
        ensures
            components@.len() == full.len(),
            forall|m: int|
                0 <= m < full.len() ==> match #[trigger] components@[m] {
                    Component::Field(b) => !full[m].0 && b@ == full[m].1,
                    Component::Index(b) => full[m].0 && b@ == full[m].1,
                },
        decreases current@.len(),
    {
        let ghost done_pre = done;
        let ghost cur_pre = current@;
        match Component::next(current.as_slice()) {
            Err(_) => {
                proof {
                    assert(components_of(cur_pre) =~= Seq::empty());
                    assert(full =~= done);
                }
                break ;
            },
            Ok((component, sub_path)) => {
                let is_empty_field = match &component {
                    Component::Field(field) => field.len() == 0,
                    Component::Index(_) => false,
                };
                if is_empty_field {
                    proof {
                        let t = next_spec(cur_pre)->Ok_0;
                        assert(!t.0 && t.1.len() == 0);
                        assert(components_of(cur_pre) =~= Seq::empty());
                        assert(full =~= done);
                    }
                    break ;
                }
                proof {
                    let t = next_spec(cur_pre)->Ok_0;
                    assert(components_of(cur_pre) =~= seq![(t.0, t.1)] + components_of(t.2));
                    done = done.push((t.0, t.1));
                    assert(full =~= done + components_of(t.2));
                    // the remaining path shrinks at every step
                    let q = drop_lead_dot(cur_pre);
                    lemma_scan_delim_props(q, 0);
                    lemma_scan_close_props(q, 1);
                    assert(t.2.len() < cur_pre.len());
                }
                components.push(component);
                current = sub_path;
            },
        }
    }
    components
}

} // verus!
