use bokai::page_shape::{
    is_image_only_page, opening_plate_source, single_image_source, states_own_rights,
};

#[test]
fn a_lone_image_with_no_body_text_is_an_image_page() {
    let raster = "<html><body><div><img src=\"images/cover.jpeg\"/></div></body></html>";
    let vector =
        "<html><body><svg><image xlink:href=\"images/cover.jpeg\"/></svg></body></html>";
    assert_eq!(single_image_source(raster).as_deref(), Some("images/cover.jpeg"));
    assert_eq!(single_image_source(vector).as_deref(), Some("images/cover.jpeg"));
    assert_eq!(opening_plate_source(raster).as_deref(), Some("images/cover.jpeg"));
    assert_eq!(opening_plate_source(vector).as_deref(), Some("images/cover.jpeg"));
    // The head title is not body text.
    let titled =
        "<html><head><title>Cover</title></head><body><img src=\"cover.jpeg\"/></body></html>";
    assert!(is_image_only_page(titled));
}

#[test]
fn a_cover_run_together_with_a_title_plate_is_still_a_page_of_pictures() {
    let pair = "<html><body><div><img src=\"cover.jpg\"/></div>\
                    <div><img src=\"title.jpg\"/></div></body></html>";
    assert_eq!(opening_plate_source(pair).as_deref(), Some("cover.jpg"));
    assert!(is_image_only_page(pair));
    assert_eq!(single_image_source(pair), None);
    // Whichever shape comes first names the page.
    let svg_first = "<html><body><svg><image href=\"plate.jpg\"/></svg>\
                         <img src=\"title.jpg\"/></body></html>";
    assert_eq!(opening_plate_source(svg_first).as_deref(), Some("plate.jpg"));
}

#[test]
fn a_plate_run_into_the_works_own_front_matter_still_opens_a_volume() {
    let html = "<html><body><figure><img src=\"Woolcover.jpg\"/></figure>\
                    <figure><img src=\"Wooltitle.jpg\"/></figure>\
                    <div><p>Copyright © 2012 by Hugh Howey</p></div></body></html>";
    assert_eq!(opening_plate_source(html).as_deref(), Some("Woolcover.jpg"));
    assert!(!is_image_only_page(html));
    assert_eq!(single_image_source(html), None);
}

#[test]
fn a_copyright_notice_is_read_by_the_sign_beside_a_year() {
    for sign in ["©", "&copy;", "&#169;", "&#xA9;", "&#x00a9;"] {
        let html = format!(
            "<html><body><p>Copyright {sign} 2012 by Hugh Howey</p>\
                                <p>All rights reserved</p></body></html>"
        );
        assert!(states_own_rights(&html), "{sign} spells the sign");
    }
    // The rights holder may come between the sign and the year.
    assert!(states_own_rights(
        "<body><p>&#169; Tom Doherty Associates, LLC 2001</p></body>"
    ));
    // Neither the words nor the script they are set in is what is read.
    assert!(states_own_rights(
        "<body><p>© 2018 鴨志田一／KADOKAWA　無断複製を禁じます</p></body>"
    ));
}

#[test]
fn a_credit_line_is_not_a_rights_notice() {
    assert!(!states_own_rights(
        "<body><figcaption>© Christopher Michel</figcaption></body>"
    ));
    assert!(!states_own_rights(
        "<body><p>First published in 1999 by Bantam Books</p></body>"
    ));
    // Nor is a year far enough past the sign to belong to another sentence.
    assert!(!states_own_rights(
        "<body><p>© the author. This edition was set in Bembo and printed \
             in Great Britain in 1999.</p></body>"
    ));
    // A run of digits that is not four long is not a year.
    assert!(!states_own_rights(
        "<body><p>© ISBN 9780765310026</p></body>"
    ));
}

#[test]
fn a_page_that_opens_on_text_opens_no_volume() {
    let html = "<html><body><h1>Chapter One</h1><img src=\"scene.jpg\"/></body></html>";
    assert_eq!(opening_plate_source(html), None);
    assert!(!is_image_only_page(html));
}

#[test]
fn text_or_no_image_at_all_disqualifies_a_page() {
    let none = "<html><body><p>Chapter One</p></body></html>";
    let empty = "<html><body></body></html>";
    for html in [none, empty] {
        assert!(!is_image_only_page(html));
        assert_eq!(single_image_source(html), None);
        assert_eq!(opening_plate_source(html), None);
    }
    // An image with text behind it is a page of pictures to nobody, but the
    // volume that opens on it opens on it all the same.
    let with_text = "<html><body><img src=\"cover.jpeg\"/><p>Chapter One</p></body></html>";
    assert!(!is_image_only_page(with_text));
    assert_eq!(single_image_source(with_text), None);
    assert_eq!(opening_plate_source(with_text).as_deref(), Some("cover.jpeg"));
}
