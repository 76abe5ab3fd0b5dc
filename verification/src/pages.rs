//! The application's top-level pages: their kinds, labels and icons.

use vstd::prelude::*;
use vstd::string::*;

verus! {

/// One top-level page of the application.
#[derive(Clone, Copy, PartialEq, Eq, Structural, Debug)]
pub enum PageKind {
    Explorer,
    Git,
    S3,
    Extensions,
    Settings,
}

impl PageKind {
    /// The page's display label.
    pub fn label(&self) -> (r: &'static str)
        ensures
            *self is Explorer ==> r@ == "エクスプローラ"@,
            *self is Git ==> r@ == "Git"@,
            *self is S3 ==> r@ == "S3"@,
            *self is Extensions ==> r@ == "拡張機能"@,
            *self is Settings ==> r@ == "設定"@,
    {
        match self {
            PageKind::Explorer => "エクスプローラ",
            PageKind::Git => "Git",
            PageKind::S3 => "S3",
            PageKind::Extensions => "拡張機能",
            PageKind::Settings => "設定",
        }
    }

    /// The page's icon asset path.
    pub fn icon_path(&self) -> (r: &'static str)
        ensures
            *self is Explorer ==> r@ == "icons/folder.svg"@,
            *self is Git ==> r@ == "icons/github.svg"@,
            *self is S3 ==> r@ == "icons/database.svg"@,
            *self is Extensions ==> r@ == "icons/layout-dashboard.svg"@,
            *self is Settings ==> r@ == "icons/settings.svg"@,
    {
        match self {
            PageKind::Explorer => "icons/folder.svg",
            PageKind::Git => "icons/github.svg",
            PageKind::S3 => "icons/database.svg",
            PageKind::Extensions => "icons/layout-dashboard.svg",
            PageKind::Settings => "icons/settings.svg",
        }
    }

    /// Every page, in display order.
    pub fn all() -> (r: Vec<PageKind>)
        ensures
            r@ == seq![
                PageKind::Explorer,
                PageKind::Git,
                PageKind::S3,
                PageKind::Extensions,
                PageKind::Settings,
            ],
    {
        let r = vec![
            PageKind::Explorer,
            PageKind::Git,
            PageKind::S3,
            PageKind::Extensions,
            PageKind::Settings,
        ];
        assert(r@ =~= seq![
            PageKind::Explorer,
            PageKind::Git,
            PageKind::S3,
            PageKind::Extensions,
            PageKind::Settings,
        ]);
        r
    }
}

} // verus!
