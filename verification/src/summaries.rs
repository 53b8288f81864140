//! The trait demo: a common behaviour for summarizing content, with the
//! summary of each type pinned down by its specification.

use vstd::prelude::*;
use vstd::string::StringExecFns;

verus! {

/// A common behaviour for summarizing content.
pub trait Summary {
    /// What the summary of this value says.
    spec fn summary_spec(&self) -> Seq<char>;

    /// Returns the summary, exactly as [`Summary::summary_spec`] says.
    fn summarize(&self) -> (r: String)
        ensures
            r@ == self.summary_spec(),
    ;
}

/// A news article with its metadata.
pub struct NewsArticle {
    pub headline: String,
    pub location: String,
    pub author: String,
    pub content: String,
}

impl Summary for NewsArticle {
    /// Headline, author and location, in that order.
    open spec fn summary_spec(&self) -> Seq<char> {
        self.headline@ + ", by "@ + self.author@ + " ("@ + self.location@ + ")"@
    }

    fn summarize(&self) -> (r: String) {
        let mut out = String::new();
        out.append(self.headline.as_str());
        out.append(", by ");
        out.append(self.author.as_str());
        out.append(" (");
        out.append(self.location.as_str());
        out.append(")");
        proof {
            assert(out@ =~= self.summary_spec());
        }
        out
    }
}

/// A short status update.
pub struct Tweet {
    pub username: String,
    pub content: String,
    pub reply: bool,
    pub retweet: bool,
}

impl Summary for Tweet {
    /// The author's name, a colon, and the content.
    open spec fn summary_spec(&self) -> Seq<char> {
        self.username@ + ": "@ + self.content@
    }

    fn summarize(&self) -> (r: String) {
        let mut out = String::new();
        out.append(self.username.as_str());
        out.append(": ");
        out.append(self.content.as_str());
        proof {
            assert(out@ =~= self.summary_spec());
        }
        out
    }
}

} // verus!
