# merge_picture

A library that merges images and PDF files into one PDF document, with its
behaviour stated in Verus contracts and proved. The merged document's page
tree (trailer `Root`, `Catalog`, `Pages` with its `Kids` and `Count`, and
`Parent` on each page) is stated in terms of the inputs' pages after
renumbering, and the pages that `lopdf` finds in the merged document are
proved to be the inputs' pages, in input order, where each page is a
dictionary object and each input's references name its objects.

- `src/domain.rs`: the requests and answers of the service, and the values
  that the application reads from the file system for it.
- `src/errors.rs`: the errors, with their codes and messages.
- `src/text.rs`: lowercasing (through `str::to_lowercase`) and suffix tests.
- `src/pdf.rs`: the `lopdf` calls that the merge makes, each with the
  contract it is trusted to meet. Loading a PDF file is file access and is
  done by the application.
- `src/services/merger.rs`: the merge service: the merge plan, inspection of
  picked paths, request validation, the preparation of each input and the
  assembly of the merged document, with the laws that tie them together.
- `src/commands.rs`: the command that needs no file access.
- `app/`: the Tauri application around the library: file access, the
  image-to-page conversion (computed in floating point), and the serde forms
  of the requests and answers.
