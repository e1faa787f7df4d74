use vstd::prelude::*;
use vstd::utf8::*;
use crate::error::{ErrorKind, error_of};

verus! {

/// A `..` component begins at byte `i` of `b`: two dots, each side a `/` or an end.
pub open spec fn parent_dir_at(b: Seq<u8>, i: int) -> bool {
    0 <= i && i + 2 <= b.len() && b[i] == 0x2e && b[i + 1] == 0x2e && (i == 0 || b[i - 1]
        == 0x2f) && (i + 2 == b.len() || b[i + 2] == 0x2f)
}

/// The name has no parent-directory (`..`) component, `/` separating components.
pub open spec fn is_safe_name(s: Seq<char>) -> bool {
    forall|i: int| !parent_dir_at(encode_utf8(s), i)
}

/// A name that is safe to store in an archive: it never climbs out of the
/// archive's root through a `..` component.
#[derive(Debug, PartialEq, Eq, Hash)]
pub struct SafePathBuf {
    path: String,
}

impl View for SafePathBuf {
    type V = Seq<char>;

    closed spec fn view(&self) -> Seq<char> {
        self.path@
    }
}

impl SafePathBuf {
    pub open spec fn wf(&self) -> bool {
        is_safe_name(self@)
    }

    /// Checks that `path` has no parent-directory component.
    pub fn verify(path: &str) -> (r: crate::error::Result<()>)
        ensures
            r is Ok <==> is_safe_name(path@),
            r matches Err(e) ==> e.kind matches ErrorKind::UnsafePath(s) && s@ == path@,
    {
        let b = path.as_bytes();
        let n = b.len();
        let mut i: usize = 0;
        while i < n
            invariant
                b@ == encode_utf8(path@),
                n == b@.len(),
                i <= n,
                forall|j: int| 0 <= j < i ==> !parent_dir_at(b@, j),
            decreases n - i,
        {
            if n - i >= 2 && b[i] == 0x2e && b[i + 1] == 0x2e && (i == 0 || b[i - 1] == 0x2f) && (
            n - i == 2 || b[i + 2] == 0x2f) {
                assert(parent_dir_at(b@, i as int));
                return Err(
                    error_of(
                        ErrorKind::UnsafePath(path.to_string()),
                        "illegal parent directory (..) in path",
                    ),
                );
            }
            i = i + 1;
        }
        assert forall|j: int| !parent_dir_at(encode_utf8(path@), j) by {
            if 0 <= j < n {
            }
        }
        Ok(())
    }

    /// A safe name from `path`, or `UnsafePath` where it holds a `..` component.
    pub fn try_from(path: &str) -> (r: crate::error::Result<SafePathBuf>)
        ensures
            r is Ok <==> is_safe_name(path@),
            r matches Ok(p) ==> p@ == path@ && p.wf(),
            r matches Err(e) ==> e.kind matches ErrorKind::UnsafePath(s) && s@ == path@,
    {
        match Self::verify(path) {
            Ok(()) => Ok(SafePathBuf { path: path.to_string() }),
            Err(e) => Err(e),
        }
    }

    /// The name as a string.
    pub fn as_path(&self) -> (r: &str)
        ensures
            r@ == self@,
    {
        self.path.as_str()
    }
}

} // verus!
