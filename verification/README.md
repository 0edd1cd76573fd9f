# twin_api

The service behind a digital twin: users register and log in, build a twin
out of nested elements, and attach data sources to the elements.

`src/` is the verified library (Verus):

- `models`: the data of the service (users, elements, sources, settings).
- `ids`: identifiers in requests (UUID text forms and base64 blobs) and
  the text the library writes for them.
- `order`, `tree`: the listing order of elements and the tree of elements
  with their sources, built by placing each element under its parent;
  `settling`: why the placing ends when the parents can be given levels.
- `db`: the statements the service runs and how their outcomes are read.
- `deletion`: the steps of deleting an element or a source.
- `replies`: the HTTP answers of the routes.
- `auth`: password hashes, the JSON the tokens carry, and tokens.
- `text`: decimal text, comment stripping and character helpers.

`app/` is the HTTP server (actix-web) and the Cassandra session (cdrs): it
reads requests and rows, hands plain values to the library and writes its
answers back as JSON.
