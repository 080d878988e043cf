use vstd::prelude::*;
use vstd::string::StringExecFns;

verus! {

/// Conversion of a caller-supplied category argument into the list of
/// category name strings that a record carries. `spec_categories` is the
/// list the conversion is proved to return.
pub trait IntoCategories: Sized {
    /// The category names this value stands for, in order.
    spec fn spec_categories(self) -> Seq<Seq<char>>;

    /// Convert into the stored list of category names.
    fn into_categories(self) -> (r: Vec<String>)
        ensures
            r.deep_view() == self.spec_categories(),
    ;
}

impl IntoCategories for Vec<String> {
    open spec fn spec_categories(self) -> Seq<Seq<char>> {
        self.deep_view()
    }

    fn into_categories(self) -> (r: Vec<String>) {
        self
    }
}

impl IntoCategories for String {
    open spec fn spec_categories(self) -> Seq<Seq<char>> {
        seq![self@]
    }

    fn into_categories(self) -> (r: Vec<String>) {
        let mut v: Vec<String> = Vec::new();
        v.push(self);
        proof {
            assert(v.deep_view() =~= self.spec_categories());
        }
        v
    }
}

impl IntoCategories for &str {
    open spec fn spec_categories(self) -> Seq<Seq<char>> {
        seq![self@]
    }

    fn into_categories(self) -> (r: Vec<String>) {
        let mut v: Vec<String> = Vec::new();
        v.push(String::from_str(self));
        proof {
            assert(v.deep_view() =~= self.spec_categories());
        }
        v
    }
}

} // verus!
