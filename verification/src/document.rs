//! The document as a whole.

use crate::drawing::{drawing_count, transcribe_content_as_svg, transcribed, BoxText, Drawing};
use crate::errors::Failure;
use crate::markup::{indent, indented};
use vstd::prelude::*;
use vstd::string::StringExecFns;

verus! {

/// how the document begins
pub open spec fn opening(
    page: BoxText<Seq<char>>,
    title: Seq<char>,
    description: Seq<char>,
    style: Seq<char>,
) -> Seq<char> {
    "<svg viewBox=\""@ + page.left + " "@ + page.top + " "@ + page.width + " "@ + page.height
        + "\" width=\""@ + page.width + "mm\" height=\""@ + page.height
        + "mm\" xmlns=\"http://www.w3.org/2000/svg\" version=\"1.1\">\n  <title>"@ + title
        + "</title>\n  <desc>"@ + description + "</desc>\n  <style>\n"@ + style
        + "\n  </style>\n"@
}

/// a document that is being written
#[derive(Debug)]
pub struct Document {
    code: String,
    element_count: u32,
}

/// what a document holds
pub struct DocumentView {
    /// what has been written so far
    pub code: Seq<char>,
    /// how many elements there are in it
    pub element_count: nat,
}

impl View for Document {
    type V = DocumentView;

    closed spec fn view(&self) -> DocumentView {
        DocumentView { code: self.code@, element_count: self.element_count as nat }
    }
}

impl Document {
    /// begin a document on a page of the given size
    pub fn new(page: &BoxText<String>, title: &str, description: &str, style: &str) -> (document:
        Document)
        ensures
            document@.code == opening(page@, title@, description@, style@),
            document@.element_count == 0,
    {
        let mut code = "<svg viewBox=\"".to_owned();
        code.append(page.left.as_str());
        code.append(" ");
        code.append(page.top.as_str());
        code.append(" ");
        code.append(page.width.as_str());
        code.append(" ");
        code.append(page.height.as_str());
        code.append("\" width=\"");
        code.append(page.width.as_str());
        code.append("mm\" height=\"");
        code.append(page.height.as_str());
        code.append("mm\" xmlns=\"http://www.w3.org/2000/svg\" version=\"1.1\">\n  <title>");
        code.append(title);
        code.append("</title>\n  <desc>");
        code.append(description);
        code.append("</desc>\n  <style>\n");
        code.append(style);
        code.append("\n  </style>\n");
        Document { code, element_count: 0 }
    }

    /// how many elements there are in the document
    pub fn element_count(&self) -> (n: u32)
        ensures
            n == self@.element_count,
    {
        self.element_count
    }

    /// write the next piece of content
    pub fn draw(&mut self, drawing: &Drawing, bounding_box: &BoxText<String>) -> (r: Result<
        (),
        Failure,
    >)
        requires
            old(self)@.element_count + drawing_count(drawing@) <= u32::MAX,
        ensures
            ({
                let (text, count) = transcribed(
                    drawing@,
                    bounding_box@,
                    old(self)@.element_count,
                );
                &&& final(self)@.element_count == count
                &&& match text {
                    Ok(text) => r is Ok && final(self)@.code == old(self)@.code + indented(
                        text,
                        "  "@,
                    ),
                    Err(e) => r matches Err(failure) && failure@ == e && final(self)@.code == old(
                        self,
                    )@.code,
                }
            }),
    {
        let mut element_count: u32 = self.element_count;
        let r = transcribe_content_as_svg(drawing, bounding_box, &mut element_count);
        self.element_count = element_count;
        match r {
            Ok(text) => {
                self.code.append(indent(text.as_str(), "  ").as_str());
                Ok(())
            },
            Err(e) => Err(e),
        }
    }

    /// end the document
    pub fn finish(self) -> (code: String)
        ensures
            code@ == self@.code + "</svg>\n"@,
    {
        let mut code = self.code;
        code.append("</svg>\n");
        code
    }
}

} // verus!
