//! Plain request and response shapes of the query surface.
//!
//! These carry external QIDs, resolved titles and view totals between the
//! engine and whatever transport serves them.  The engine itself never
//! resolves titles; callers decorate these shapes with titles fetched from
//! their metadata source.

use vstd::prelude::*;

verus! {

/// Request shape of the subcategory listing.
pub struct SubCategoryParams {
    pub wiki: String,
    pub category: String,
}

/// One ranked article with its resolved title.
pub struct TopArticle {
    pub qid: u32,
    pub title: String,
    pub views: u32,
}

/// One ranked category with its resolved title and representative articles.
pub struct TopCategory {
    pub qid: u32,
    pub title: String,
    pub views: u32,
    pub top_articles: Vec<TopArticle>,
}

/// The response of the top-categories query.
pub struct CategoryRankResponse {
    pub categories: Vec<TopCategory>,
}

/// One article's total views over a window, as served to callers.
#[derive(Clone, Copy, PartialEq, Eq, Structural, Debug)]
pub struct ArticleViews {
    pub article_qid: u32,
    pub total_views: u64,
}

/// One category's total views over a window with its top articles, as
/// served to callers.
#[derive(Debug)]
pub struct CategoryViews {
    pub category_qid: u32,
    pub total_views: u64,
    pub top_articles: Vec<ArticleViews>,
}

} // verus!
